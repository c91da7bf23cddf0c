use vnscope::price::{
    cache_key, is_cache_invalidated, list_of_resolution, merge_fetched, CacheTtlConfig,
    ListBrokersRequest, OhclRequest, OhclRequestError,
};

#[test]
fn ttl_table_from_settings() {
    let none: Vec<Option<String>> = vec![None; 11];
    let config = CacheTtlConfig::from_settings(&None, &none);
    assert_eq!(config.default_ttl, 60);
    assert_eq!(config.get("1"), 60);
    assert_eq!(config.get("4H"), 14400);
    assert_eq!(config.get("1W"), 604800);
    assert_eq!(config.get("30"), 1800); // minutes
    assert_eq!(config.get("1M"), 60); // fallback
    let mut set = none.clone();
    set[2] = Some("42".to_string()); // "5"
    set[9] = Some("bad".to_string()); // "1W" ignored
    let config = CacheTtlConfig::from_settings(&Some("7".to_string()), &set);
    assert_eq!(config.default_ttl, 7);
    assert_eq!(config.ttls, vec![("5".to_string(), 42)]);
    assert_eq!(config.get("5"), 42);
    assert_eq!(config.get("1W"), 7);
    assert_eq!(config.get("15"), 900);
    let config = CacheTtlConfig::from_settings(&Some("x".to_string()), &none);
    assert_eq!(config.default_ttl, 60);
}

#[test]
fn cache_staleness() {
    assert!(is_cache_invalidated(None, 100, 60));
    assert!(!is_cache_invalidated(Some(50), 100, 60));
    assert!(is_cache_invalidated(Some(30), 100, 60));
    assert!(!is_cache_invalidated(Some(200), 100, 0));
    assert_eq!(cache_key("VN30", "1D"), "VN30:1D");
    assert_eq!(list_of_resolution(), vec!["1D", "1M", "1W"]);
}

#[test]
fn fetched_candles_merge_onto_cached_ones() {
    let cached = vec![(1, 'a'), (2, 'b')];
    let fetched = vec![(1, 'x'), (2, 'B'), (3, 'c'), (3, 'C'), (2, 'z'), (5, 'e')];
    assert_eq!(
        merge_fetched(cached, fetched),
        vec![(1, 'a'), (2, 'B'), (3, 'C'), (5, 'e')]
    );
    assert_eq!(merge_fetched(Vec::new(), vec![(4, 'd')]), vec![(4, 'd')]);
}

#[test]
fn ohcl_requests_select_their_window() {
    let req = OhclRequest { resolution: "1D".into(), from: 10, to: 5, limit: 0 };
    assert_eq!(req.check(), Err(OhclRequestError::EmptyWindow { from: 10, to: 5 }));
    let req = OhclRequest { resolution: "1D".into(), from: 2, to: 6, limit: 0 };
    assert_eq!(req.check(), Ok(()));
    let candles: Vec<(i32, u8)> = (0..10).map(|t| (t, t as u8)).collect();
    let (kept, next) = req.select(candles.clone());
    assert_eq!(kept.iter().map(|c| c.0).collect::<Vec<_>>(), vec![2, 3, 4, 5, 6]);
    assert_eq!(next, None);
    let limited = OhclRequest { resolution: "1D".into(), from: 2, to: 6, limit: 2 };
    let (kept, next) = limited.select(candles);
    assert_eq!(kept.iter().map(|c| c.0).collect::<Vec<_>>(), vec![2, 3, 4]);
    assert_eq!(next, Some(4));
}

#[test]
fn broker_pages() {
    let req = ListBrokersRequest { after: None, limit: None };
    assert_eq!(req.page(), (0, 10));
    let req = ListBrokersRequest { after: Some(5), limit: Some(3) };
    assert_eq!(req.page(), (5, 3));
    assert_eq!(ListBrokersRequest::next(8, 3, 3), Some(8));
    assert_eq!(ListBrokersRequest::next(0, 3, 3), None);
    assert_eq!(ListBrokersRequest::next(8, 2, 3), None);
}

use vnscope::price::{binance_window, kline_time, next_binance_start, plan_fetch, CandleSource, FetchPlan};

fn plan(source: CandleSource, index: bool, limit: usize) -> Option<FetchPlan> {
    Some(FetchPlan { source, index, limit })
}

#[test]
fn provider_selection() {
    assert_eq!(plan_fetch("ssi", "FPT", "dnse", 0), plan(CandleSource::Ssi, false, 0));
    assert_eq!(plan_fetch("stock", "FPT", "ssi", 5), plan(CandleSource::Ssi, false, 5));
    assert_eq!(plan_fetch("stock", "FPT", "dnse", 5), plan(CandleSource::Dnse, false, 5));
    assert_eq!(plan_fetch("dnse", "VN30", "dnse", 5), plan(CandleSource::Dnse, true, 5));
    assert_eq!(plan_fetch("dragon", "FPT", "dnse", 0), plan(CandleSource::Dragon, false, 1_000_000));
    assert_eq!(plan_fetch("stock", "FPT", "dragon", 7), plan(CandleSource::Dragon, false, 7));
    // Dragon does not serve indexes: DNSE does.
    assert_eq!(plan_fetch("dragon", "VNINDEX", "dnse", 0), plan(CandleSource::Dnse, true, 0));
    assert_eq!(plan_fetch("ssi", "HNXINDEX", "dragon", 0), plan(CandleSource::Dnse, true, 0));
    assert_eq!(plan_fetch("binance", "BTCUSDT", "dnse", 0), plan(CandleSource::Binance, false, 1_000_000));
    assert_eq!(plan_fetch("crypto", "BTCUSDT", "dnse", 3), plan(CandleSource::Binance, false, 3));
    assert_eq!(plan_fetch("yahoo", "FPT", "dnse", 3), None);
    assert_eq!(plan_fetch("stock", "FPT", "yahoo", 3), None);
}

#[test]
fn kept_candles() {
    let p = plan_fetch("ssi", "FPT", "dnse", 3).unwrap();
    assert_eq!(p.kept(10), 3);
    assert_eq!(p.kept(2), 2);
    let p = plan_fetch("ssi", "FPT", "dnse", 0).unwrap();
    assert_eq!(p.kept(10), 10);
    let p = plan_fetch("binance", "BTCUSDT", "dnse", 3).unwrap();
    assert_eq!(p.kept(10), 10);
}

#[test]
fn binance_paging() {
    assert_eq!(binance_window(1_700_000_000, 1_700_086_400), (1_700_000_000_000, 1_700_086_400_000));
    assert_eq!(next_binance_start(&vec![]), None);
    assert_eq!(next_binance_start(&vec![(1000, 1999)]), None);
    assert_eq!(next_binance_start(&vec![(1000, 1999), (2000, 2999)]), Some(2999));
    assert_eq!(kline_time(1_700_000_000_999), 1_700_000_000);
    assert_eq!(kline_time(-1_500), -1);
}

use vnscope::price::{heatmap_candles, HeatmapError, HeatmapRequest};

fn heatmap(resolution: &str) -> HeatmapRequest {
    HeatmapRequest { resolution: resolution.to_string(), now: 1_000_000, lookback: 3, overlap: 0, number_of_levels: 10, interval_in_hour: 1 }
}

#[test]
fn heatmap_windows() {
    assert_eq!(heatmap("1D").window(), Ok((1_000_000 - 3 * 86400, 1_000_000)));
    assert_eq!(heatmap("1W").window(), Ok((1_000_000 - 3 * 604800, 1_000_000)));
    assert_eq!(heatmap("1H").window(), Err(HeatmapError::UnsupportedResolution));
}

#[test]
fn heatmap_keeps_window_candles() {
    let candles = vec![(5, 'a'), (10, 'b'), (15, 'c'), (20, 'd'), (7, 'e')];
    assert_eq!(heatmap_candles(candles.clone(), 7, 15), vec![(10, 'b'), (15, 'c'), (7, 'e')]);
    // The bounds are taken as i32: 2^32 + 10 reads as 10.
    assert_eq!(heatmap_candles(candles, (1i64 << 32) + 10, 20), vec![(10, 'b'), (15, 'c'), (20, 'd')]);
}
