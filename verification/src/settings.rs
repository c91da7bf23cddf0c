//! Choices the service makes when it starts: where its stores are, and which symbols it
//! watches.
use vstd::prelude::*;

verus! {

/// The address of the Redis store: the configured DSN where there is one, otherwise one
/// built from the user, password, host and port.
pub open spec fn redis_address(dsn: Seq<char>, user: Seq<char>, password: Seq<char>, host: Seq<char>, port: Seq<char>) -> Seq<char> {
    if dsn.len() > 0 {
        dsn
    } else {
        "redis://"@ + user + ":"@ + password + "@"@ + host + ":"@ + port
    }
}

/// The address of the Redis store.
pub fn redis_url(dsn: &str, user: &str, password: &str, host: &str, port: &str) -> (r: String)
    ensures
        r@ == redis_address(dsn@, user@, password@, host@, port@),
{
    if dsn.unicode_len() > 0 {
        return dsn.to_owned();
    }
    let mut out = String::new();
    out.append("redis://");
    out.append(user);
    out.append(":");
    out.append(password);
    out.append("@");
    out.append(host);
    out.append(":");
    out.append(port);
    proof {
        assert(out@ =~= redis_address(dsn@, user@, password@, host@, port@));
    }
    out
}

/// The database to connect to: the DSN kept as a secret wins over the one in the
/// environment; with neither there is no database.
pub fn database_dsn(secret: &str, environment: Option<&str>) -> (r: Option<String>)
    ensures
        secret@.len() > 0 ==> (r matches Some(d) && d@ == secret@),
        secret@.len() == 0 ==> match environment {
            Some(e) => r matches Some(d) && d@ == e@,
            None => r is None,
        },
{
    if secret.unicode_len() > 0 {
        Some(secret.to_owned())
    } else {
        match environment {
            Some(e) => Some(e.to_owned()),
            None => None,
        }
    }
}

/// An entry of the watchlist.
pub struct WatchlistEntry {
    pub symbol: Option<String>,
    pub use_order_flow: Option<bool>,
}

/// The symbols of the entries that have one, in order.
pub open spec fn watched(entries: Seq<WatchlistEntry>) -> Seq<Seq<char>>
    decreases entries.len(),
{
    if entries.len() == 0 {
        seq![]
    } else {
        match entries.last().symbol {
            Some(s) => watched(entries.drop_last()).push(s@),
            None => watched(entries.drop_last()),
        }
    }
}

/// The symbols of the entries marked to use the order flow, in order.
pub open spec fn order_flow(entries: Seq<WatchlistEntry>) -> Seq<Seq<char>>
    decreases entries.len(),
{
    if entries.len() == 0 {
        seq![]
    } else {
        let e = entries.last();
        if e.use_order_flow == Some(true) && e.symbol is Some {
            order_flow(entries.drop_last()).push(e.symbol->0@)
        } else {
            order_flow(entries.drop_last())
        }
    }
}

/// The watched symbols.
pub fn watch_symbols(entries: &Vec<WatchlistEntry>) -> (r: Vec<String>)
    ensures
        r@.map_values(|s: String| s@) == watched(entries@),
{
    let mut out: Vec<String> = Vec::new();
    let mut i: usize = 0;
    while i < entries.len()
        invariant
            i <= entries@.len(),
            out@.map_values(|s: String| s@) == watched(entries@.take(i as int)),
        decreases entries@.len() - i,
    {
        let ghost before = out@;
        assert(entries@.take(i + 1).drop_last() =~= entries@.take(i as int));
        if let Some(s) = &entries[i].symbol {
            let symbol = s.clone();
            out.push(symbol);
            assert(out@.map_values(|s: String| s@) =~= before.map_values(|s: String| s@).push(symbol@));
        }
        i = i + 1;
    }
    assert(entries@.take(i as int) =~= entries@);
    out
}

/// The symbols whose order flow is followed.
pub fn order_flow_symbols(entries: &Vec<WatchlistEntry>) -> (r: Vec<String>)
    ensures
        r@.map_values(|s: String| s@) == order_flow(entries@),
{
    let mut out: Vec<String> = Vec::new();
    let mut i: usize = 0;
    while i < entries.len()
        invariant
            i <= entries@.len(),
            out@.map_values(|s: String| s@) == order_flow(entries@.take(i as int)),
        decreases entries@.len() - i,
    {
        let ghost before = out@;
        assert(entries@.take(i + 1).drop_last() =~= entries@.take(i as int));
        let flows = match entries[i].use_order_flow {
            Some(b) => b,
            None => false,
        };
        if flows {
            if let Some(s) = &entries[i].symbol {
                let symbol = s.clone();
                out.push(symbol);
                assert(out@.map_values(|s: String| s@) =~= before.map_values(|s: String| s@).push(symbol@));
            }
        }
        i = i + 1;
    }
    assert(entries@.take(i as int) =~= entries@);
    out
}

} // verus!
