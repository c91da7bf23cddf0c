//! Which list of symbols a listing request is answered from, and the industries whose
//! symbols can be listed.
use crate::text::text_is;
use vstd::prelude::*;

verus! {

/// The industries whose symbols can be listed, each with its sector code.
pub open spec fn industry_codes() -> Seq<(Seq<char>, Seq<char>)> {
    seq![
        ("petroleum"@, "0500"@),
        ("chemical"@, "1300"@),
        ("basic resources"@, "1700"@),
        ("construction & building materials"@, "2300"@),
        ("industrial goods & services"@, "2700"@),
        ("cars & car parts"@, "3300"@),
        ("food & beverage"@, "3500"@),
        ("personal & household goods"@, "3700"@),
        ("medical"@, "4500"@),
        ("retail"@, "5300"@),
        ("communication"@, "5500"@),
        ("travel & entertainment"@, "5700"@),
        ("telecomunication"@, "6500"@),
        ("electricity, water & petrol"@, "7500"@),
        ("banking"@, "8300"@),
        ("insurance"@, "8500"@),
        ("real estate"@, "8600"@),
        ("finance service"@, "8700"@),
        ("information technology"@, "9500"@),
    ]
}

/// The code of the first entry of `table` named `name`.
pub open spec fn code_in(table: Seq<(Seq<char>, Seq<char>)>, name: Seq<char>) -> Option<Seq<char>>
    decreases table.len(),
{
    if table.len() == 0 {
        None
    } else if table[0].0 == name {
        Some(table[0].1)
    } else {
        code_in(table.drop_first(), name)
    }
}

/// Each industry that can be listed has its own sector code, as the clauses below give
/// them name by name; no other name has a code.
pub proof fn lemma_industry_codes(name: Seq<char>)
    ensures
        code_in(industry_codes(), "banking"@) == Some("8300"@),
        code_in(industry_codes(), "basic resources"@) == Some("1700"@),
        code_in(industry_codes(), "cars & car parts"@) == Some("3300"@),
        code_in(industry_codes(), "chemical"@) == Some("1300"@),
        code_in(industry_codes(), "communication"@) == Some("5500"@),
        code_in(industry_codes(), "construction & building materials"@) == Some("2300"@),
        code_in(industry_codes(), "electricity, water & petrol"@) == Some("7500"@),
        code_in(industry_codes(), "finance service"@) == Some("8700"@),
        code_in(industry_codes(), "food & beverage"@) == Some("3500"@),
        code_in(industry_codes(), "industrial goods & services"@) == Some("2700"@),
        code_in(industry_codes(), "information technology"@) == Some("9500"@),
        code_in(industry_codes(), "insurance"@) == Some("8500"@),
        code_in(industry_codes(), "medical"@) == Some("4500"@),
        code_in(industry_codes(), "personal & household goods"@) == Some("3700"@),
        code_in(industry_codes(), "petroleum"@) == Some("0500"@),
        code_in(industry_codes(), "real estate"@) == Some("8600"@),
        code_in(industry_codes(), "retail"@) == Some("5300"@),
        code_in(industry_codes(), "telecomunication"@) == Some("6500"@),
        code_in(industry_codes(), "travel & entertainment"@) == Some("5700"@),
        code_in(industry_codes(), name) is Some ==> (name == "banking"@
            || name == "basic resources"@
            || name == "cars & car parts"@
            || name == "chemical"@
            || name == "communication"@
            || name == "construction & building materials"@
            || name == "electricity, water & petrol"@
            || name == "finance service"@
            || name == "food & beverage"@
            || name == "industrial goods & services"@
            || name == "information technology"@
            || name == "insurance"@
            || name == "medical"@
            || name == "personal & household goods"@
            || name == "petroleum"@
            || name == "real estate"@
            || name == "retail"@
            || name == "telecomunication"@
            || name == "travel & entertainment"@),
{
    reveal_strlit("retail");
    reveal_strlit("medical");
    reveal_strlit("banking");
    reveal_strlit("chemical");
    reveal_strlit("petroleum");
    reveal_strlit("insurance");
    reveal_strlit("real estate");
    reveal_strlit("communication");
    reveal_strlit("basic resources");
    reveal_strlit("food & beverage");
    reveal_strlit("finance service");
    reveal_strlit("cars & car parts");
    reveal_strlit("telecomunication");
    reveal_strlit("travel & entertainment");
    reveal_strlit("information technology");
    reveal_strlit("personal & household goods");
    reveal_strlit("industrial goods & services");
    reveal_strlit("electricity, water & petrol");
    reveal_strlit("construction & building materials");
    let table = industry_codes();
    // Each name differs from every other in its length or its second letter.
    let marks = table.map_values(|e: (Seq<char>, Seq<char>)| (e.0.len(), e.0[1]));
    assert(marks =~= seq![(9, 'e'), (8, 'h'), (15, 'a'), (33, 'o'), (27, 'n'), (16, 'a'), (15, 'o'), (26, 'e'), (7, 'e'), (6, 'e'), (13, 'o'), (22, 'r'), (16, 'e'), (27, 'l'), (7, 'a'), (9, 'n'), (11, 'e'), (15, 'i'), (22, 'n')]);
    assert forall|i: int| 0 <= i < table.len() implies #[trigger] code_in(table, table[i].0) == Some(table[i].1) by {
        assert forall|j: int| 0 <= j < i implies table[j].0 != table[i].0 by {
            assert(marks[j] != marks[i]);
        }
        lemma_code_at(table, i);
    }
    lemma_code_in_names(table, name);
}

/// Where no earlier entry of `table` has the name of entry `i`, the code of that name is
/// the code of entry `i`.
proof fn lemma_code_at(table: Seq<(Seq<char>, Seq<char>)>, i: int)
    requires
        0 <= i < table.len(),
        forall|j: int| 0 <= j < i ==> table[j].0 != table[i].0,
    ensures
        code_in(table, table[i].0) == Some(table[i].1),
    decreases i,
{
    if i > 0 {
        assert(table[0].0 != table[i].0);
        lemma_code_at(table.drop_first(), i - 1);
    }
}

/// A name with a code in `table` is one of the table's names.
proof fn lemma_code_in_names(table: Seq<(Seq<char>, Seq<char>)>, name: Seq<char>)
    ensures
        code_in(table, name) is Some ==> exists|i: int| 0 <= i < table.len() && #[trigger] table[i].0 == name,
    decreases table.len(),
{
    if table.len() > 0 && table[0].0 != name {
        lemma_code_in_names(table.drop_first(), name);
        if code_in(table, name) is Some {
            let i = choose|i: int| 0 <= i < table.drop_first().len() && #[trigger] table.drop_first()[i].0 == name;
            assert(table[i + 1].0 == name);
        }
    }
}

/// The sector code of an industry, if it is one that can be listed.
pub fn industry_code(name: &str) -> (r: Option<&'static str>)
    ensures
        match code_in(industry_codes(), name@) {
            Some(c) => r matches Some(s) && s@ == c,
            None => r is None,
        },
{
    let table: Vec<(&'static str, &'static str)> = vec![
        ("petroleum", "0500"),
        ("chemical", "1300"),
        ("basic resources", "1700"),
        ("construction & building materials", "2300"),
        ("industrial goods & services", "2700"),
        ("cars & car parts", "3300"),
        ("food & beverage", "3500"),
        ("personal & household goods", "3700"),
        ("medical", "4500"),
        ("retail", "5300"),
        ("communication", "5500"),
        ("travel & entertainment", "5700"),
        ("telecomunication", "6500"),
        ("electricity, water & petrol", "7500"),
        ("banking", "8300"),
        ("insurance", "8500"),
        ("real estate", "8600"),
        ("finance service", "8700"),
        ("information technology", "9500"),
    ];
    let ghost view = table@.map_values(|e: (&'static str, &'static str)| (e.0@, e.1@));
    assert(view =~= industry_codes());
    assert(view.skip(0) =~= view);
    let mut i: usize = 0;
    while i < table.len()
        invariant
            i <= table@.len(),
            view == table@.map_values(|e: (&'static str, &'static str)| (e.0@, e.1@)),
            code_in(industry_codes(), name@) == code_in(view.skip(i as int), name@),
        decreases table@.len() - i,
    {
        let (n, c) = table[i];
        assert(view.skip(i as int).drop_first() =~= view.skip(i + 1));
        if text_is(name, n) {
            return Some(c);
        }
        i = i + 1;
    }
    None
}

/// A list of symbols that a listing is answered from.
#[derive(Clone, Copy, Debug, PartialEq, Eq, Structural)]
pub enum SymbolList {
    /// The stocks of the Ho Chi Minh exchange.
    Hose,
    Vn30,
    Vn100,
    Midcap,
    Penny,
    /// The stock futures.
    Futures,
    /// The stocks of an industry.
    Industry,
    /// The cryptocurrency pairs that trade.
    Crypto,
}

impl SymbolList {
    /// The index code the data feed lists the symbols of an index under.
    pub fn index_code(&self) -> (r: Option<&'static str>)
        ensures
            match *self {
                SymbolList::Hose => r matches Some(c) && c@ == "hose"@,
                SymbolList::Vn30 => r matches Some(c) && c@ == "VN30"@,
                SymbolList::Vn100 => r matches Some(c) && c@ == "VN100"@,
                SymbolList::Midcap => r matches Some(c) && c@ == "VNMID"@,
                SymbolList::Penny => r matches Some(c) && c@ == "VNSML"@,
                _ => r is None,
            },
    {
        match self {
            SymbolList::Hose => Some("hose"),
            SymbolList::Vn30 => Some("VN30"),
            SymbolList::Vn100 => Some("VN100"),
            SymbolList::Midcap => Some("VNMID"),
            SymbolList::Penny => Some("VNSML"),
            _ => None,
        }
    }
}

/// How a listing request is answered.
#[derive(Clone, Copy, Debug, PartialEq, Eq, Structural)]
pub enum Listing {
    /// With the symbols of a list.
    Symbols(SymbolList),
    /// Not implemented, though the symbols of the list, where there is one, come along.
    NotImplemented(Option<SymbolList>),
    /// The broker has no such product.
    NoSuchProduct,
    /// There is no such broker.
    NoSuchBroker,
    /// The broker (or its product) is disabled, or whether it is could not be read.
    Blocked,
}

/// The answer to a listing of a product's symbols at a broker.
pub open spec fn product_listing(broker: Seq<char>, product: Seq<char>, enabled: bool) -> Listing {
    if !enabled {
        Listing::Blocked
    } else if broker == "stock"@ {
        if product == "cw"@ {
            Listing::NotImplemented(None)
        } else if product == "vn30"@ {
            Listing::Symbols(SymbolList::Vn30)
        } else if product == "vn100"@ {
            Listing::Symbols(SymbolList::Vn100)
        } else if product == "midcap"@ {
            Listing::Symbols(SymbolList::Midcap)
        } else if product == "penny"@ {
            Listing::Symbols(SymbolList::Penny)
        } else if product == "future"@ {
            Listing::Symbols(SymbolList::Futures)
        } else if code_in(industry_codes(), product) is Some {
            Listing::Symbols(SymbolList::Industry)
        } else {
            Listing::NoSuchProduct
        }
    } else if broker == "crypto"@ {
        if product == "spot"@ {
            Listing::Symbols(SymbolList::Crypto)
        } else if product == "future"@ {
            Listing::NotImplemented(None)
        } else {
            Listing::NoSuchProduct
        }
    } else {
        Listing::NoSuchBroker
    }
}

/// Answers a listing of a product's symbols at a broker, given whether the product is
/// enabled there.
pub fn list_product(broker: &str, product: &str, enabled: bool) -> (r: Listing)
    ensures
        r == product_listing(broker@, product@, enabled),
{
    if !enabled {
        return Listing::Blocked;
    }
    if text_is(broker, "stock") {
        if text_is(product, "cw") {
            Listing::NotImplemented(None)
        } else if text_is(product, "vn30") {
            Listing::Symbols(SymbolList::Vn30)
        } else if text_is(product, "vn100") {
            Listing::Symbols(SymbolList::Vn100)
        } else if text_is(product, "midcap") {
            Listing::Symbols(SymbolList::Midcap)
        } else if text_is(product, "penny") {
            Listing::Symbols(SymbolList::Penny)
        } else if text_is(product, "future") {
            Listing::Symbols(SymbolList::Futures)
        } else if industry_code(product).is_some() {
            Listing::Symbols(SymbolList::Industry)
        } else {
            Listing::NoSuchProduct
        }
    } else if text_is(broker, "crypto") {
        if text_is(product, "spot") {
            Listing::Symbols(SymbolList::Crypto)
        } else if text_is(product, "future") {
            Listing::NotImplemented(None)
        } else {
            Listing::NoSuchProduct
        }
    } else {
        Listing::NoSuchBroker
    }
}

/// The answer to a listing of a broker's symbols.
pub open spec fn broker_listing(broker: Seq<char>, enabled: bool) -> Listing {
    if !enabled {
        Listing::Blocked
    } else if broker == "stock"@ {
        Listing::NotImplemented(Some(SymbolList::Hose))
    } else if broker == "crypto"@ {
        Listing::NotImplemented(Some(SymbolList::Crypto))
    } else {
        Listing::NoSuchBroker
    }
}

/// Answers a listing of a broker's symbols, given whether the broker is enabled.
pub fn list_broker(broker: &str, enabled: bool) -> (r: Listing)
    ensures
        r == broker_listing(broker@, enabled),
{
    if !enabled {
        Listing::Blocked
    } else if text_is(broker, "stock") {
        Listing::NotImplemented(Some(SymbolList::Hose))
    } else if text_is(broker, "crypto") {
        Listing::NotImplemented(Some(SymbolList::Crypto))
    } else {
        Listing::NoSuchBroker
    }
}

/// The symbols of the pairs whose status is `TRADING`, in order.
pub open spec fn trading<S: View<V = Seq<char>>>(pairs: Seq<(S, S)>) -> Seq<Seq<char>>
    decreases pairs.len(),
{
    if pairs.len() == 0 {
        seq![]
    } else if pairs.last().1@ == "TRADING"@ {
        trading(pairs.drop_last()).push(pairs.last().0@)
    } else {
        trading(pairs.drop_last())
    }
}

/// The symbols of the cryptocurrency pairs that trade, given each pair's symbol and status.
pub fn trading_symbols(pairs: &Vec<(String, String)>) -> (r: Vec<String>)
    ensures
        r@.map_values(|s: String| s@) == trading(pairs@),
{
    let mut out: Vec<String> = Vec::new();
    let mut i: usize = 0;
    while i < pairs.len()
        invariant
            i <= pairs@.len(),
            out@.map_values(|s: String| s@) == trading(pairs@.take(i as int)),
        decreases pairs@.len() - i,
    {
        let ghost before = out@;
        assert(pairs@.take(i + 1).drop_last() =~= pairs@.take(i as int));
        if text_is(pairs[i].1.as_str(), "TRADING") {
            let symbol = pairs[i].0.clone();
            out.push(symbol);
            assert(out@.map_values(|s: String| s@) =~= before.map_values(|s: String| s@).push(symbol@));
        }
        i = i + 1;
    }
    assert(pairs@.take(i as int) =~= pairs@);
    out
}

} // verus!
