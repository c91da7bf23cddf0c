use vnscope::settings::{database_dsn, order_flow_symbols, redis_url, watch_symbols, WatchlistEntry};

#[test]
fn redis_address() {
    assert_eq!(redis_url("redis://dsn", "u", "p", "h", "1"), "redis://dsn");
    assert_eq!(redis_url("", "u", "p", "h", "6379"), "redis://u:p@h:6379");
    assert_eq!(redis_url("", "", "", "", ""), "redis://:@:");
}

#[test]
fn database_address() {
    assert_eq!(database_dsn("secret", Some("env")), Some("secret".to_string()));
    assert_eq!(database_dsn("", Some("env")), Some("env".to_string()));
    assert_eq!(database_dsn("secret", None), Some("secret".to_string()));
    assert_eq!(database_dsn("", None), None);
}

fn entry(symbol: Option<&str>, flow: Option<bool>) -> WatchlistEntry {
    WatchlistEntry { symbol: symbol.map(|s| s.to_string()), use_order_flow: flow }
}

#[test]
fn watched_symbols() {
    let entries = vec![
        entry(Some("FPT"), Some(true)),
        entry(None, Some(true)),
        entry(Some("VNM"), Some(false)),
        entry(Some("HPG"), None),
        entry(Some("MWG"), Some(true)),
    ];
    assert_eq!(watch_symbols(&entries), vec!["FPT", "VNM", "HPG", "MWG"]);
    assert_eq!(order_flow_symbols(&entries), vec!["FPT", "MWG"]);
}
