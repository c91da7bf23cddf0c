use vnscope::investing::SymbolInDetail;
use vnscope::socket::{forwards, subscribe_one, unsubscribe, BrokerCheck, Subscriptions};

fn item(broker: &str, symbol: &str) -> SymbolInDetail {
    SymbolInDetail { broker: broker.to_string(), symbol: symbol.to_string() }
}

#[test]
fn subscribing_follows_enabled_brokers_only() {
    let mut session = Subscriptions::new();
    assert_eq!(subscribe_one(&mut session, &item("binance", "BTCUSDT"), &BrokerCheck::Enabled), None);
    assert!(forwards(&session, "binance", "BTCUSDT"));
    assert!(!forwards(&session, "binance", "ETHUSDT"));
    assert_eq!(
        subscribe_one(&mut session, &item("dnse", "FPT"), &BrokerCheck::Disabled),
        Some("Broker 'dnse' is not enabled.".to_string())
    );
    assert!(!forwards(&session, "dnse", "FPT"));
    assert_eq!(
        subscribe_one(&mut session, &item("ssi", "FPT"), &BrokerCheck::Failed("db down".to_string())),
        Some("Internal error: db down".to_string())
    );
    assert!(!forwards(&session, "ssi", "FPT"));
}

#[test]
fn unsubscribing_stops_forwarding() {
    let mut session = Subscriptions::new();
    subscribe_one(&mut session, &item("binance", "BTCUSDT"), &BrokerCheck::Enabled);
    subscribe_one(&mut session, &item("binance", "BTCUSDT"), &BrokerCheck::Enabled);
    subscribe_one(&mut session, &item("binance", "ETHUSDT"), &BrokerCheck::Enabled);
    unsubscribe(&mut session, &vec![item("binance", "BTCUSDT"), item("binance", "XRPUSDT")]);
    assert!(!forwards(&session, "binance", "BTCUSDT"));
    assert!(forwards(&session, "binance", "ETHUSDT"));
    // The pair was held once: one unsubscription removes it for good.
    unsubscribe(&mut session, &vec![item("binance", "ETHUSDT")]);
    assert!(!forwards(&session, "binance", "ETHUSDT"));
}
