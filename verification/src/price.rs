//! Price data plumbing: how long cached candles stay fresh, which provider candles are
//! fetched from, how freshly fetched candles are merged onto cached ones, and which candles
//! an OHCL request selects.
//!
//! Candles are handled as `(time, candle)` pairs: the logic reads only the time.
use crate::candle_cache::trunc_div;
use crate::text::{parse_integer, parse_u64, text_is};
use vstd::prelude::*;

verus! {

/// The resolutions whose time-to-live can be set one by one.
pub open spec fn configurable_resolutions() -> Seq<Seq<char>> {
    seq!["1"@, "3"@, "5"@, "15"@, "30"@, "45"@, "1H"@, "4H"@, "1D"@, "1W"@, "1M"@]
}

/// The resolutions whose time-to-live can be set one by one, in the order they are read.
pub fn configurable_resolution_names() -> (r: Vec<&'static str>)
    ensures
        r@.len() == configurable_resolutions().len(),
        forall|i: int| 0 <= i < r@.len() ==> #[trigger] r@[i]@ == configurable_resolutions()[i],
{
    let r = vec!["1", "3", "5", "15", "30", "45", "1H", "4H", "1D", "1W", "1M"];
    assert(r@.len() == 11);
    r
}

/// The time-to-live of cached candles per resolution.
#[derive(Clone, Debug)]
pub struct CacheTtlConfig {
    pub ttls: Vec<(String, u64)>,
    pub default_ttl: u64,
}

/// The seconds a text setting gives, or `fallback` when it is absent or not a `u64`.
pub open spec fn seconds_or(setting: Option<Seq<char>>, fallback: u64) -> u64 {
    match setting {
        Some(s) => match parse_integer(s, false, 0, u64::MAX as int) {
            Some(v) => v as u64,
            None => fallback,
        },
        None => fallback,
    }
}

/// The resolutions set one by one, with their seconds, in the order they are read.
pub open spec fn set_ttls(settings: Seq<Option<Seq<char>>>, names: Seq<Seq<char>>) -> Seq<(Seq<char>, u64)>
    decreases settings.len(),
{
    if settings.len() == 0 {
        Seq::empty()
    } else {
        let i = settings.len() - 1;
        set_ttls(settings.drop_last(), names) + match settings[i] {
            Some(s) => match parse_integer(s, false, 0, u64::MAX as int) {
                Some(v) => seq![(names[i], v as u64)],
                None => Seq::empty(),
            },
            None => Seq::empty(),
        }
    }
}

/// The table used when no resolution is set one by one.
pub open spec fn default_ttls() -> Seq<(Seq<char>, u64)> {
    seq![("1"@, 60u64), ("5"@, 300u64), ("15"@, 900u64), ("1H"@, 3600u64), ("4H"@, 14400u64),
        ("1D"@, 86400u64), ("1W"@, 604800u64)]
}

/// The views of a table of time-to-live entries.
pub open spec fn ttl_views(t: Seq<(String, u64)>) -> Seq<(Seq<char>, u64)> {
    t.map_values(|e: (String, u64)| (e.0@, e.1))
}

/// The views of optional text settings.
pub open spec fn setting_views(s: Seq<Option<String>>) -> Seq<Option<Seq<char>>> {
    s.map_values(|o: Option<String>| match o { Some(t) => Some(t@), None => None })
}

/// The time-to-live of the first entry for `resolution`, if any.
pub open spec fn lookup(t: Seq<(Seq<char>, u64)>, resolution: Seq<char>) -> Option<u64>
    decreases t.len(),
{
    if t.len() == 0 {
        None
    } else if t[0].0 == resolution {
        Some(t[0].1)
    } else {
        lookup(t.drop_first(), resolution)
    }
}

/// The time-to-live of `resolution` under a table and a fallback: its entry; else, for a
/// resolution written as a number of minutes, that many minutes; else the fallback.
pub open spec fn ttl_of(t: Seq<(Seq<char>, u64)>, fallback: u64, resolution: Seq<char>) -> int {
    match lookup(t, resolution) {
        Some(v) => v as int,
        None => match parse_integer(resolution, false, 0, u64::MAX as int) {
            Some(m) => m * 60,
            None => fallback as int,
        },
    }
}

impl CacheTtlConfig {
    /// Builds the table from the settings: the fallback from `default_setting` (60 seconds
    /// when absent or not a number), and one entry per configurable resolution whose
    /// setting is a number, in the order of `configurable_resolution_names`. When no
    /// resolution is set, a fixed table is used.
    pub fn from_settings(default_setting: &Option<String>, settings: &Vec<Option<String>>) -> (r: CacheTtlConfig)
        requires
            settings@.len() == configurable_resolutions().len(),
        ensures
            r.default_ttl == seconds_or(match *default_setting { Some(s) => Some(s@), None => None }, 60),
            set_ttls(setting_views(settings@), configurable_resolutions()).len() > 0 ==> ttl_views(r.ttls@)
                == set_ttls(setting_views(settings@), configurable_resolutions()),
            set_ttls(setting_views(settings@), configurable_resolutions()).len() == 0 ==> ttl_views(r.ttls@)
                == default_ttls(),
    {
        let default_ttl = match default_setting {
            Some(s) => match parse_u64(s.as_str()) {
                Some(v) => v,
                None => 60,
            },
            None => 60,
        };
        let names = configurable_resolution_names();
        let ghost views = setting_views(settings@);
        let mut ttls: Vec<(String, u64)> = Vec::new();
        let mut i: usize = 0;
        while i < settings.len()
            invariant
                0 <= i <= settings@.len(),
                settings@.len() == names@.len(),
                views == setting_views(settings@),
                forall|j: int| 0 <= j < names@.len() ==> #[trigger] names@[j]@ == configurable_resolutions()[j],
                ttl_views(ttls@) == set_ttls(views.subrange(0, i as int), configurable_resolutions()),
            decreases settings@.len() - i,
        {
            let ghost before = ttl_views(ttls@);
            let ghost sub = views.subrange(0, i + 1);
            proof {
                assert(sub.drop_last() =~= views.subrange(0, i as int));
                assert(sub[i as int] == views[i as int]);
            }
            match &settings[i] {
                Some(s) => match parse_u64(s.as_str()) {
                    Some(v) => {
                        ttls.push((names[i].to_owned(), v));
                        proof {
                            assert(ttl_views(ttls@) =~= before + seq![(configurable_resolutions()[i as int], v)]);
                        }
                    },
                    None => {
                        proof {
                            assert(ttl_views(ttls@) =~= before + Seq::empty());
                        }
                    },
                },
                None => {
                    proof {
                        assert(ttl_views(ttls@) =~= before + Seq::empty());
                    }
                },
            }
            i = i + 1;
        }
        proof {
            assert(views.subrange(0, settings@.len() as int) =~= views);
        }
        if ttls.len() == 0 {
            ttls.push(("1".to_owned(), 60));
            ttls.push(("5".to_owned(), 300));
            ttls.push(("15".to_owned(), 900));
            ttls.push(("1H".to_owned(), 3600));
            ttls.push(("4H".to_owned(), 4 * 3600));
            ttls.push(("1D".to_owned(), 86400));
            ttls.push(("1W".to_owned(), 7 * 86400));
            proof {
                assert(ttl_views(ttls@) =~= default_ttls());
            }
        }
        CacheTtlConfig { ttls, default_ttl }
    }

    /// The time-to-live of `resolution`. A resolution written as minutes must not name more
    /// minutes than fit in a `u64` once turned into seconds.
    pub fn get(&self, resolution: &str) -> (r: u64)
        requires
            parse_integer(resolution@, false, 0, u64::MAX as int) matches Some(m) ==> m * 60 <= u64::MAX,
        ensures
            r == ttl_of(ttl_views(self.ttls@), self.default_ttl, resolution@),
    {
        let mut i: usize = 0;
        proof {
            assert(ttl_views(self.ttls@).skip(0) =~= ttl_views(self.ttls@));
        }
        while i < self.ttls.len()
            invariant
                0 <= i <= self.ttls@.len(),
                lookup(ttl_views(self.ttls@), resolution@) == lookup(ttl_views(self.ttls@).skip(i as int), resolution@),
            decreases self.ttls@.len() - i,
        {
            let ghost rest = ttl_views(self.ttls@).skip(i as int);
            proof {
                assert(rest[0] == (self.ttls@[i as int].0@, self.ttls@[i as int].1));
                assert(rest.drop_first() =~= ttl_views(self.ttls@).skip(i + 1));
            }
            if text_is(self.ttls[i].0.as_str(), resolution) {
                return self.ttls[i].1;
            }
            i = i + 1;
        }
        proof {
            assert(ttl_views(self.ttls@).skip(i as int).len() == 0);
        }
        match parse_u64(resolution) {
            Some(minutes) => minutes * 60,
            None => self.default_ttl,
        }
    }
}

/// Whether cached candles last updated at `last_update` (none when never cached) are stale
/// at `now`, under a time-to-live of `ttl` seconds.
pub fn is_cache_invalidated(last_update: Option<u64>, now: u64, ttl: u64) -> (r: bool)
    ensures
        r == match last_update {
            Some(t) => now.saturating_sub(t) > ttl,
            None => true,
        },
{
    match last_update {
        Some(t) => now.saturating_sub(t) > ttl,
        None => true,
    }
}

/// The key under which a stock's cache at a resolution is timed: `stock:resolution`.
pub fn cache_key(stock: &str, resolution: &str) -> (r: String)
    ensures
        r@ == stock@ + ":"@ + resolution@,
{
    let mut out = String::new();
    out.append(stock);
    out.append(":");
    out.append(resolution);
    proof {
        assert(out@ =~= stock@ + ":"@ + resolution@);
    }
    out
}

/// The resolutions that cached prices are kept at.
pub fn list_of_resolution() -> (r: Vec<String>)
    ensures
        r@.len() == 3,
        r@[0]@ == "1D"@,
        r@[1]@ == "1M"@,
        r@[2]@ == "1W"@,
{
    vec!["1D".to_owned(), "1M".to_owned(), "1W".to_owned()]
}

/// Where candles of a series are fetched from.
#[derive(Clone, Copy, Debug, PartialEq, Eq, Structural)]
pub enum CandleSource {
    Ssi,
    Dnse,
    Dragon,
    Binance,
}

/// Whether a symbol is one of the market indexes, which are fetched as indexes rather than
/// as stocks.
pub open spec fn is_index(stock: Seq<char>) -> bool {
    stock == "VNINDEX"@ || stock == "HNXINDEX"@ || stock == "VN30"@
}

/// The provider actually asked: the Dragon provider (asked for, or the default for stocks)
/// does not serve indexes, which go to DNSE instead.
pub open spec fn effective_provider(provider: Seq<char>, stock: Seq<char>, default_stock: Seq<char>) -> Seq<char> {
    if (provider == "dragon"@ || default_stock == "dragon"@) && is_index(stock) {
        "dnse"@
    } else {
        provider
    }
}

/// The source of a provider name: `ssi`, `dnse` and `dragon` by name, `stock` meaning the
/// default stock provider, `binance` or `crypto` for Binance; any other name is not
/// supported.
pub open spec fn source_of(provider: Seq<char>, stock: Seq<char>, default_stock: Seq<char>) -> Option<CandleSource> {
    let p = effective_provider(provider, stock, default_stock);
    if p == "ssi"@ || (p == "stock"@ && default_stock == "ssi"@) {
        Some(CandleSource::Ssi)
    } else if p == "dnse"@ || (p == "stock"@ && default_stock == "dnse"@) {
        Some(CandleSource::Dnse)
    } else if p == "dragon"@ || (p == "stock"@ && default_stock == "dragon"@) {
        Some(CandleSource::Dragon)
    } else if p == "binance"@ || p == "crypto"@ {
        Some(CandleSource::Binance)
    } else {
        None
    }
}

/// The provider a fetch goes to. Where neither the provider asked nor the default stock
/// provider is Dragon, the source is the one the provider names, for indexes as for
/// stocks: `ssi`, `dnse`, `binance` and `crypto` by name, `stock` meaning the default stock
/// provider (`ssi` or `dnse`), and any other name none. Dragon does not serve indexes: a
/// Dragon request for an index goes to DNSE, one for a stock to Dragon.
pub proof fn lemma_fetch_source(provider: Seq<char>, stock: Seq<char>, default_stock: Seq<char>)
    ensures
        provider != "dragon"@ && default_stock != "dragon"@ ==> source_of(provider, stock, default_stock) == if provider
            == "ssi"@ {
            Some(CandleSource::Ssi)
        } else if provider == "dnse"@ {
            Some(CandleSource::Dnse)
        } else if provider == "binance"@ || provider == "crypto"@ {
            Some(CandleSource::Binance)
        } else if provider == "stock"@ && default_stock == "ssi"@ {
            Some(CandleSource::Ssi)
        } else if provider == "stock"@ && default_stock == "dnse"@ {
            Some(CandleSource::Dnse)
        } else {
            None::<CandleSource>
        },
        provider == "dragon"@ && is_index(stock) ==> source_of(provider, stock, default_stock) == Some(
            CandleSource::Dnse,
        ),
        provider == "dragon"@ && !is_index(stock) ==> source_of(provider, stock, default_stock) == Some(
            CandleSource::Dragon,
        ),
{
    reveal_strlit("dragon");
    reveal_strlit("ssi");
    reveal_strlit("dnse");
    reveal_strlit("stock");
    reveal_strlit("binance");
    reveal_strlit("crypto");
    assert("ssi"@.len() != "dnse"@.len());
    assert("ssi"@.len() != "dragon"@.len());
    assert("ssi"@.len() != "stock"@.len());
    assert("ssi"@.len() != "binance"@.len());
    assert("ssi"@.len() != "crypto"@.len());
    assert("dnse"@.len() != "dragon"@.len());
    assert("dnse"@.len() != "stock"@.len());
    assert("dnse"@.len() != "binance"@.len());
    assert("dnse"@.len() != "crypto"@.len());
    assert("dragon"@[0] != "stock"@[0]);
    assert("dragon"@.len() != "binance"@.len());
    assert("dragon"@[0] != "crypto"@[0]);
    assert("stock"@.len() != "binance"@.len());
    assert("stock"@.len() != "crypto"@.len());
    assert("binance"@.len() != "crypto"@.len());
}

/// How a series is fetched: from which source, whether as an index, and how many candles
/// to ask for (zero meaning no limit).
#[derive(Clone, Copy, Debug, PartialEq, Eq, Structural)]
pub struct FetchPlan {
    pub source: CandleSource,
    pub index: bool,
    pub limit: usize,
}

/// Whether the symbol is a market index.
fn index_symbol(stock: &str) -> (r: bool)
    ensures
        r == is_index(stock@),
{
    text_is(stock, "VNINDEX") || text_is(stock, "HNXINDEX") || text_is(stock, "VN30")
}

/// Plans the fetch of a series from `provider` (`default_stock` being the default stock
/// provider): `None` when the provider is not supported. Dragon and Binance need a count,
/// so no limit becomes a million candles there.
pub fn plan_fetch(provider: &str, stock: &str, default_stock: &str, limit: usize) -> (r: Option<FetchPlan>)
    ensures
        match source_of(provider@, stock@, default_stock@) {
            None => r is None,
            Some(source) => r == Some(FetchPlan {
                source,
                index: is_index(stock@),
                limit: if (source == CandleSource::Dragon || source == CandleSource::Binance) && limit == 0 {
                    1_000_000
                } else {
                    limit
                },
            }),
        },
{
    let index = index_symbol(stock);
    let dragon_index = (text_is(provider, "dragon") || text_is(default_stock, "dragon")) && index;
    let p: &str = if dragon_index { "dnse" } else { provider };
    proof {
        assert(p@ == effective_provider(provider@, stock@, default_stock@));
    }
    let default_is = |name: &str| -> (b: bool)
        ensures
            b == (default_stock@ == name@),
        { text_is(default_stock, name) };
    let stock_default = text_is(p, "stock");
    let source = if text_is(p, "ssi") || (stock_default && default_is("ssi")) {
        CandleSource::Ssi
    } else if text_is(p, "dnse") || (stock_default && default_is("dnse")) {
        CandleSource::Dnse
    } else if text_is(p, "dragon") || (stock_default && default_is("dragon")) {
        CandleSource::Dragon
    } else if text_is(p, "binance") || text_is(p, "crypto") {
        CandleSource::Binance
    } else {
        return None;
    };
    let counted = match source {
        CandleSource::Dragon | CandleSource::Binance => true,
        _ => false,
    };
    let limit = if counted && limit == 0 { 1_000_000 } else { limit };
    Some(FetchPlan { source, index, limit })
}

impl FetchPlan {
    /// How many of the `available` candles a stock provider's answer keeps: at most the
    /// limit, where there is one. Binance pages are kept whole.
    pub fn kept(&self, available: usize) -> (r: usize)
        ensures
            r == if self.source != CandleSource::Binance && self.limit > 0 && available > self.limit {
                self.limit
            } else {
                available
            },
    {
        if self.source != CandleSource::Binance && self.limit > 0 && available > self.limit {
            self.limit
        } else {
            available
        }
    }
}

/// The Binance window in milliseconds of the window `[from, to]` in seconds.
pub fn binance_window(from: i64, to: i64) -> (r: (i64, i64))
    requires
        i64::MIN <= from * 1000 <= i64::MAX,
        i64::MIN <= to * 1000 <= i64::MAX,
    ensures
        r.0 == from * 1000,
        r.1 == to * 1000,
{
    (from * 1000, to * 1000)
}

/// Where the Binance pager goes after a page of klines, given each kline's open and close
/// times in milliseconds: an empty page, or one whose first and last klines open at the same
/// time, ends the paging (and is not kept); otherwise the page is kept and the next one
/// starts at the close time of its last kline.
pub fn next_binance_start(page: &Vec<(i64, i64)>) -> (r: Option<i64>)
    ensures
        page@.len() == 0 ==> r is None,
        page@.len() > 0 ==> r == if page@[0].0 == page@.last().0 {
            None
        } else {
            Some(page@.last().1)
        },
{
    let n = page.len();
    if n == 0 {
        return None;
    }
    if page[0].0 == page[n - 1].0 {
        None
    } else {
        Some(page[n - 1].1)
    }
}

/// The candle time of a kline opening at `ms` milliseconds: whole seconds (rounded toward
/// zero), taken as an `i32` the way `as` does.
pub fn kline_time(ms: i64) -> (r: i32)
    ensures
        r == (#[verifier::truncate] (trunc_div(ms as int, 1000) as i32)),
{
    #[verifier::truncate]
    ((ms / 1000) as i32)
}

/// Merges one fetched candle onto `s`: a later candle is appended, a candle of the same
/// time replaces the last one, an earlier one is dropped.
pub open spec fn merge_one<C>(s: Seq<(i32, C)>, c: (i32, C)) -> Seq<(i32, C)> {
    if s.last().0 < c.0 {
        s.push(c)
    } else if s.last().0 == c.0 {
        s.update(s.len() - 1, c)
    } else {
        s
    }
}

/// Merges fetched candles, in order, onto a non-empty list.
pub open spec fn merge_all<C>(s: Seq<(i32, C)>, tail: Seq<(i32, C)>) -> Seq<(i32, C)>
    decreases tail.len(),
{
    if tail.len() == 0 {
        s
    } else {
        merge_one(merge_all(s, tail.drop_last()), tail.last())
    }
}

proof fn lemma_merge_all_nonempty<C>(s: Seq<(i32, C)>, tail: Seq<(i32, C)>)
    requires
        s.len() > 0,
    ensures
        merge_all(s, tail).len() > 0,
    decreases tail.len(),
{
    if tail.len() > 0 {
        lemma_merge_all_nonempty(s, tail.drop_last());
    }
}

/// Whether the candles' times strictly increase.
pub open spec fn increasing<C>(s: Seq<(i32, C)>) -> bool {
    forall|x: int, y: int| 0 <= x < y < s.len() ==> s[x].0 < s[y].0
}

/// Merging fetched candles onto cached ones whose times strictly increase keeps them
/// strictly increasing, never shortens the list, and keeps every cached candle but the last
/// in place.
pub proof fn lemma_merge_keeps_order<C>(s: Seq<(i32, C)>, tail: Seq<(i32, C)>)
    requires
        s.len() > 0,
        increasing(s),
    ensures
        increasing(merge_all(s, tail)),
        merge_all(s, tail).len() >= s.len(),
        forall|i: int| 0 <= i < s.len() - 1 ==> #[trigger] merge_all(s, tail)[i] == s[i],
    decreases tail.len(),
{
    if tail.len() > 0 {
        lemma_merge_keeps_order(s, tail.drop_last());
        let m = merge_all(s, tail.drop_last());
        let c = tail.last();
        let r = merge_one(m, c);
        assert(r == merge_all(s, tail));
        if m.last().0 < c.0 {
            assert forall|x: int, y: int| 0 <= x < y < r.len() implies r[x].0 < r[y].0 by {
                if y == r.len() - 1 && x < y {
                    assert(m[x].0 <= m.last().0);
                }
            }
        } else if m.last().0 == c.0 {
            assert forall|x: int, y: int| 0 <= x < y < r.len() implies r[x].0 < r[y].0 by {
                if y == r.len() - 1 {
                    assert(m[x].0 < m[y].0);
                }
            }
        }
    }
}

/// `v` in reverse order.
fn reversed<C>(v: Vec<(i32, C)>) -> (r: Vec<(i32, C)>)
    ensures
        r@.len() == v@.len(),
        forall|j: int| 0 <= j < r@.len() ==> #[trigger] r@[j] == v@[v@.len() - 1 - j],
{
    let ghost all = v@;
    let mut src = v;
    let mut out: Vec<(i32, C)> = Vec::new();
    while src.len() > 0
        invariant
            src@ == all.subrange(0, src@.len() as int),
            out@.len() + src@.len() == all.len(),
            forall|j: int| 0 <= j < out@.len() ==> #[trigger] out@[j] == all[all.len() - 1 - j],
        decreases src@.len(),
    {
        let x = src.pop().unwrap();
        out.push(x);
        proof {
            assert(src@ =~= all.subrange(0, src@.len() as int));
        }
    }
    out
}

/// Puts freshly fetched candles after the cached ones: with nothing cached the fetched
/// candles are the answer; otherwise each fetched candle later than the last one is
/// appended and one of the same time replaces it.
pub fn merge_fetched<C>(cached: Vec<(i32, C)>, fetched: Vec<(i32, C)>) -> (r: Vec<(i32, C)>)
    ensures
        cached@.len() == 0 ==> r@ == fetched@,
        cached@.len() > 0 ==> r@ == merge_all(cached@, fetched@),
{
    if cached.len() == 0 {
        return fetched;
    }
    let ghost start = cached@;
    let ghost all = fetched@;
    let mut result = cached;
    let mut rest = reversed(fetched);
    let total: usize = rest.len();
    let mut taken: usize = 0;
    while rest.len() > 0
        invariant
            start.len() > 0,
            total == all.len(),
            taken + rest@.len() == total,
            forall|j: int| 0 <= j < rest@.len() ==> #[trigger] rest@[j] == all[total - 1 - j],
            result@ == merge_all(start, all.subrange(0, taken as int)),
        decreases rest@.len(),
    {
        let c = rest.pop().unwrap();
        proof {
            assert(c == all[taken as int]);
            let sub = all.subrange(0, taken + 1);
            assert(sub.drop_last() =~= all.subrange(0, taken as int));
            assert(sub.last() == c);
            lemma_merge_all_nonempty(start, all.subrange(0, taken as int));
        }
        let last = result.len() - 1;
        if result[last].0 < c.0 {
            result.push(c);
        } else if result[last].0 == c.0 {
            result.set(last, c);
        }
        taken = taken + 1;
    }
    proof {
        assert(all.subrange(0, total as int) =~= all);
    }
    result
}

/// The query of an OHCL request.
#[derive(Clone, Debug)]
pub struct OhclRequest {
    pub resolution: String,
    pub from: i64,
    pub to: i64,
    pub limit: usize,
}

/// Why an OHCL request is refused.
#[derive(Clone, Copy, Debug, PartialEq, Eq, Structural)]
pub enum OhclRequestError {
    /// The window does not end after it starts.
    EmptyWindow { from: i64, to: i64 },
}

/// The candles of a cached answer that a request keeps, and where the next page starts.
pub open spec fn selected<C>(s: Seq<(i32, C)>, from: i32, to: i32, limit: usize) -> (Seq<(i32, C)>, Option<i32>)
    decreases s.len(),
{
    if s.len() == 0 {
        (Seq::empty(), None)
    } else {
        let (prev, next) = selected(s.drop_last(), from, to, limit);
        if next is Some {
            (prev, next)
        } else {
            let c = s.last();
            let kept = if from <= c.0 && c.0 <= to { prev.push(c) } else { prev };
            if limit > 0 && kept.len() > limit {
                (kept, Some(c.0))
            } else {
                (kept, None)
            }
        }
    }
}

impl OhclRequest {
    /// Refuses a window that does not end after it starts.
    pub fn check(&self) -> (r: Result<(), OhclRequestError>)
        ensures
            r is Ok <==> self.from < self.to,
            r is Err ==> r == Err::<(), OhclRequestError>(OhclRequestError::EmptyWindow { from: self.from, to: self.to }),
    {
        if self.from >= self.to {
            Err(OhclRequestError::EmptyWindow { from: self.from, to: self.to })
        } else {
            Ok(())
        }
    }

    /// Selects, from cached candles in time order, those within `[from, to]` (compared as
    /// 32-bit times). With a positive limit the walk stops at the candle that takes the
    /// selection past the limit; that candle's time is where the next page starts.
    pub fn select<C>(&self, candles: Vec<(i32, C)>) -> (r: (Vec<(i32, C)>, Option<i32>))
        ensures
            (r.0@, r.1) == selected(candles@, self.from as i32, self.to as i32, self.limit),
    {
        let from = self.from as i32;
        let to = self.to as i32;
        let ghost all = candles@;
        let mut rest = reversed(candles);
        let total: usize = rest.len();
        let mut result: Vec<(i32, C)> = Vec::new();
        let mut next: Option<i32> = None;
        let mut taken: usize = 0;
        while rest.len() > 0
            invariant
                total == all.len(),
                taken + rest@.len() == total,
                forall|j: int| 0 <= j < rest@.len() ==> #[trigger] rest@[j] == all[total - 1 - j],
                (result@, next) == selected(all.subrange(0, taken as int), from, to, self.limit),
                next is None,
                from == self.from as i32,
                to == self.to as i32,
                all == candles@,
            decreases rest@.len(),
        {
            let c = rest.pop().unwrap();
            let t = c.0;
            proof {
                assert(c == all[taken as int]);
                let sub = all.subrange(0, taken + 1);
                assert(sub.drop_last() =~= all.subrange(0, taken as int));
                assert(sub.last() == c);
            }
            let ghost prev = result@;
            if from <= t && t <= to {
                result.push(c);
            }
            let stop = self.limit > 0 && result.len() > self.limit;
            proof {
                let sub = all.subrange(0, taken + 1);
                assert(selected(sub.drop_last(), from, to, self.limit) == (prev, None::<i32>));
                assert(selected(sub, from, to, self.limit) == (result@, if stop { Some(t) } else { None::<i32> }));
            }
            taken = taken + 1;
            if stop {
                next = Some(t);
                proof {
                    lemma_selected_stops(all, taken as int, from, to, self.limit);
                }
                return (result, next);
            }
        }
        proof {
            assert(all.subrange(0, total as int) =~= all);
        }
        (result, next)
    }
}

/// Once a selection has stopped, later candles change nothing.
proof fn lemma_selected_stops<C>(s: Seq<(i32, C)>, k: int, from: i32, to: i32, limit: usize)
    requires
        0 <= k <= s.len(),
        selected(s.subrange(0, k), from, to, limit).1 is Some,
    ensures
        selected(s, from, to, limit) == selected(s.subrange(0, k), from, to, limit),
    decreases s.len() - k,
{
    if k < s.len() {
        let sub = s.subrange(0, k + 1);
        assert(sub.drop_last() =~= s.subrange(0, k));
        lemma_selected_stops(s, k + 1, from, to, limit);
    } else {
        assert(s.subrange(0, k) =~= s);
    }
}

/// The query of the broker listing.
#[derive(Clone, Debug)]
pub struct ListBrokersRequest {
    pub after: Option<i32>,
    pub limit: Option<u64>,
}

impl ListBrokersRequest {
    /// The page asked for: 10 brokers after broker `0` unless the query says otherwise.
    pub fn page(&self) -> (r: (i32, u64))
        ensures
            r.0 == match self.after { Some(a) => a, None => 0 },
            r.1 == match self.limit { Some(l) => l, None => 10 },
    {
        let limit = match self.limit {
            Some(l) => l,
            None => 10,
        };
        let after = match self.after {
            Some(a) => a,
            None => 0,
        };
        (after, limit)
    }

    /// Where the next page of brokers starts: only a full page with a positive cursor has
    /// a next page.
    pub fn next(next: i32, returned: usize, limit: u64) -> (r: Option<i32>)
        ensures
            r == if next > 0 && returned == limit { Some(next) } else { None::<i32> },
    {
        if next > 0 && returned as u64 == limit {
            Some(next)
        } else {
            None
        }
    }
}

/// The query of a volume heatmap request.
#[derive(Clone, Debug)]
pub struct HeatmapRequest {
    pub resolution: String,
    pub now: i64,
    pub lookback: i64,
    pub overlap: usize,
    pub number_of_levels: usize,
    pub interval_in_hour: i32,
}

/// Why a heatmap request is refused.
#[derive(Clone, Copy, Debug, PartialEq, Eq, Structural)]
pub enum HeatmapError {
    /// Only `1D` and `1W` heatmaps are supported.
    UnsupportedResolution,
}

/// The seconds one `lookback` step spans at a heatmap resolution.
pub open spec fn heatmap_step(resolution: Seq<char>) -> Option<int> {
    if resolution == "1D"@ {
        Some(86400)
    } else if resolution == "1W"@ {
        Some(604800)
    } else {
        None
    }
}

impl HeatmapRequest {
    /// The window `[now - lookback steps, now]` the heatmap covers, or why it is refused.
    pub fn window(&self) -> (r: Result<(i64, i64), HeatmapError>)
        requires
            heatmap_step(self.resolution@) matches Some(step) ==> i64::MIN <= self.now - step * self.lookback
                <= i64::MAX && i64::MIN <= step * self.lookback <= i64::MAX,
        ensures
            match heatmap_step(self.resolution@) {
                Some(step) => r == Ok::<(i64, i64), HeatmapError>(((self.now - step * self.lookback) as i64, self.now)),
                None => r == Err::<(i64, i64), HeatmapError>(HeatmapError::UnsupportedResolution),
            },
    {
        proof {
            reveal_strlit("1D");
            reveal_strlit("1W");
        }
        let step: i64 = if text_is(self.resolution.as_str(), "1D") {
            86400
        } else if text_is(self.resolution.as_str(), "1W") {
            604800
        } else {
            return Err(HeatmapError::UnsupportedResolution);
        };
        let span = step * self.lookback;
        Ok((self.now - span, self.now))
    }
}

/// The candles of a heatmap window: those whose time lies in `[from, to]`, the bounds taken
/// as `i32` the way `as` does.
pub open spec fn in_heatmap<C>(candles: Seq<(i32, C)>, from: i64, to: i64) -> Seq<(i32, C)> {
    candles.filter(|c: (i32, C)| (from as i32) <= c.0 && c.0 <= (to as i32))
}

/// Keeps the candles of a heatmap window, in order.
pub fn heatmap_candles<C>(candles: Vec<(i32, C)>, from: i64, to: i64) -> (r: Vec<(i32, C)>)
    ensures
        r@ == in_heatmap(candles@, from, to),
{
    let lo = #[verifier::truncate] (from as i32);
    let hi = #[verifier::truncate] (to as i32);
    let ghost all = candles@;
    let mut rest = reversed(candles);
    let total = rest.len();
    let mut out: Vec<(i32, C)> = Vec::new();
    while rest.len() > 0
        invariant
            total == all.len(),
            rest@.len() <= total,
            forall|j: int| 0 <= j < rest@.len() ==> #[trigger] rest@[j] == all[total - 1 - j],
            out@ == in_heatmap(all.take(total - rest@.len()), from, to),
            lo == (from as i32),
            hi == (to as i32),
        decreases rest@.len(),
    {
        let ghost k = total - rest@.len();
        let c = rest.pop().unwrap();
        proof {
            reveal(Seq::filter);
            assert(all.take(k + 1).drop_last() =~= all.take(k));
            assert(all.take(k + 1).last() == c);
        }
        if lo <= c.0 && c.0 <= hi {
            out.push(c);
        }
    }
    proof {
        assert(all.take(total as int) =~= all);
    }
    out
}

} // verus!
