use vnscope::listing::{industry_code, list_broker, list_product, trading_symbols, Listing, SymbolList};

#[test]
fn industry_codes() {
    assert_eq!(industry_code("banking"), Some("8300"));
    assert_eq!(industry_code("information technology"), Some("9500"));
    assert_eq!(industry_code("petroleum"), Some("0500"));
    assert_eq!(industry_code("Banking"), None);
    assert_eq!(industry_code(""), None);
}

#[test]
fn product_listings() {
    assert_eq!(list_product("stock", "vn30", true), Listing::Symbols(SymbolList::Vn30));
    assert_eq!(list_product("stock", "vn100", true), Listing::Symbols(SymbolList::Vn100));
    assert_eq!(list_product("stock", "midcap", true), Listing::Symbols(SymbolList::Midcap));
    assert_eq!(list_product("stock", "penny", true), Listing::Symbols(SymbolList::Penny));
    assert_eq!(list_product("stock", "future", true), Listing::Symbols(SymbolList::Futures));
    assert_eq!(list_product("stock", "banking", true), Listing::Symbols(SymbolList::Industry));
    assert_eq!(list_product("stock", "cw", true), Listing::NotImplemented(None));
    assert_eq!(list_product("stock", "bonds", true), Listing::NoSuchProduct);
    assert_eq!(list_product("crypto", "spot", true), Listing::Symbols(SymbolList::Crypto));
    assert_eq!(list_product("crypto", "future", true), Listing::NotImplemented(None));
    assert_eq!(list_product("crypto", "vn30", true), Listing::NoSuchProduct);
    assert_eq!(list_product("forex", "spot", true), Listing::NoSuchBroker);
    assert_eq!(list_product("stock", "vn30", false), Listing::Blocked);
}

#[test]
fn broker_listings() {
    assert_eq!(list_broker("stock", true), Listing::NotImplemented(Some(SymbolList::Hose)));
    assert_eq!(list_broker("crypto", true), Listing::NotImplemented(Some(SymbolList::Crypto)));
    assert_eq!(list_broker("forex", true), Listing::NoSuchBroker);
    assert_eq!(list_broker("stock", false), Listing::Blocked);
}

#[test]
fn index_codes() {
    assert_eq!(SymbolList::Hose.index_code(), Some("hose"));
    assert_eq!(SymbolList::Vn30.index_code(), Some("VN30"));
    assert_eq!(SymbolList::Vn100.index_code(), Some("VN100"));
    assert_eq!(SymbolList::Midcap.index_code(), Some("VNMID"));
    assert_eq!(SymbolList::Penny.index_code(), Some("VNSML"));
    assert_eq!(SymbolList::Crypto.index_code(), None);
}

#[test]
fn crypto_pairs_that_trade() {
    let pairs = vec![
        ("BTCUSDT".to_string(), "TRADING".to_string()),
        ("XYZUSDT".to_string(), "BREAK".to_string()),
        ("ETHUSDT".to_string(), "TRADING".to_string()),
    ];
    assert_eq!(trading_symbols(&pairs), vec!["BTCUSDT".to_string(), "ETHUSDT".to_string()]);
}
