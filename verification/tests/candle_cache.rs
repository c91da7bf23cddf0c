use vnscope::candle_cache::{fetch_limit, fetch_window, CacheError, CandleCache, BLOCK_SECONDS};

const W: i64 = BLOCK_SECONDS;

fn candle(t: i64) -> (i32, u8) {
    (t as i32, (t % 251) as u8)
}

#[test]
fn storing_nothing_is_refused() {
    let mut cache: CandleCache<u8> = CandleCache::new(4);
    assert_eq!(cache.store(vec![]), Err(CacheError::EmptyCandles));
}

#[test]
fn scan_reads_back_stored_candles() {
    let mut cache: CandleCache<u8> = CandleCache::new(4);
    // Two weeks of candles, one a day, given out of order.
    let mut candles: Vec<(i32, u8)> = (0..14).map(|d| candle(10 * W + d * 86400)).collect();
    candles.reverse();
    cache.store(candles).unwrap();
    // An aligned window covering both weeks.
    let scan = cache.scan(10 * W, 12 * W, 0);
    assert!(!scan.complete); // block 12 is not cached
    let times: Vec<i64> = scan.candles.iter().map(|c| c.0 as i64).collect();
    // Each block keeps its candles in the order they were given.
    let mut expected: Vec<i64> = (0..7).rev().map(|d| 10 * W + d * 86400).collect();
    expected.extend((7..14).rev().map(|d| 10 * W + d * 86400));
    assert_eq!(times, expected);
    assert_eq!(scan.first, 10 * W);
    assert_eq!(scan.last, 10 * W + 13 * 86400);
    assert_eq!(scan.from, 11 * W);
    assert_eq!(scan.to, 12 * W);
    assert!(!scan.answers(false));
    assert!(scan.answers(true));
}

#[test]
fn scan_within_one_block() {
    let mut cache: CandleCache<u8> = CandleCache::new(4);
    cache.store((0..7).map(|d| candle(10 * W + d * 86400)).collect()).unwrap();
    // [10W, 10W + 3 days): block 10 only (to is not a block start, so block 11 is read too).
    let scan = cache.scan(10 * W, 10 * W + 3 * 86400, 0);
    let times: Vec<i64> = scan.candles.iter().map(|c| c.0 as i64).collect();
    assert_eq!(times, vec![10 * W, 10 * W + 86400, 10 * W + 2 * 86400]);
    assert!(!scan.complete);
    assert_eq!(scan.from, 10 * W);
}

#[test]
fn unaligned_start_reads_the_block_before() {
    let mut cache: CandleCache<u8> = CandleCache::new(4);
    cache.store((0..7).map(|d| candle(10 * W + d * 86400)).collect()).unwrap();
    let scan = cache.scan(10 * W + 5, 11 * W, 0);
    // Block 9 comes first and is not cached: nothing is read.
    assert!(scan.candles.is_empty());
    assert!(!scan.complete);
    assert_eq!(scan.from, 8 * W);
    assert_eq!(scan.first, 11 * W);
    assert_eq!(scan.last, 10 * W + 5);
}

#[test]
fn complete_scan_keeps_the_window() {
    let mut cache: CandleCache<u8> = CandleCache::new(4);
    cache.store(vec![candle(10 * W), candle(10 * W + 1)]).unwrap();
    let scan = cache.scan(10 * W, 10 * W, 0);
    assert!(scan.complete);
    assert!(scan.candles.is_empty());
    assert_eq!(scan.from, 10 * W);
}

#[test]
fn oldest_block_is_evicted() {
    let mut cache: CandleCache<u8> = CandleCache::new(1);
    cache.store(vec![candle(10 * W)]).unwrap();
    cache.store(vec![candle(20 * W)]).unwrap();
    let scan = cache.scan(10 * W, 10 * W, 0);
    assert!(!scan.complete);
    let scan = cache.scan(20 * W, 20 * W, 0);
    assert!(scan.complete);
}

#[test]
fn windows_to_fetch() {
    assert_eq!(fetch_window(10 * W + 5, 12 * W + 5), (9 * W, 13 * W));
    assert_eq!(fetch_window(-5, 5), (-W, W));
    assert_eq!(fetch_limit(0), 0);
    assert_eq!(fetch_limit(10), 10 + 2 * 604800);
}
