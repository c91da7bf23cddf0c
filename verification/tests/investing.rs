use vnscope::investing::{next_after, LimitTooLarge, Page, QueryPagingInput, RrgError, RrgRequest};

fn query(after: Option<i32>, limit: Option<u64>, detail: Option<bool>) -> QueryPagingInput {
    QueryPagingInput { after, limit, detail }
}

#[test]
fn listing_page_defaults() {
    assert_eq!(query(None, None, None).page(), Ok(Page { after: 0, limit: 10, detail: false }));
    assert_eq!(query(Some(5), Some(100), Some(true)).page(), Ok(Page { after: 5, limit: 100, detail: true }));
    assert_eq!(query(None, Some(101), None).page(), Err(LimitTooLarge(101)));
}

#[test]
fn detailed_listing_page_limits() {
    assert_eq!(query(None, Some(11), Some(true)).detailed_page(), Err(LimitTooLarge(11)));
    assert_eq!(query(None, Some(10), Some(true)).detailed_page(), Ok(Page { after: 0, limit: 10, detail: true }));
    assert_eq!(query(None, Some(100), None).detailed_page(), Ok(Page { after: 0, limit: 100, detail: false }));
    assert_eq!(query(None, Some(101), Some(false)).detailed_page(), Err(LimitTooLarge(101)));
}

#[test]
fn listing_next_cursor() {
    assert_eq!(next_after(&vec![Some(1), Some(7)], 2), Some(7));
    assert_eq!(next_after(&vec![Some(1), None], 2), None);
    assert_eq!(next_after(&vec![Some(1)], 2), None);
    assert_eq!(next_after(&vec![], 0), None);
}

fn rrg(resolution: &str) -> RrgRequest {
    RrgRequest { resolution: resolution.to_string(), reference: "VNINDEX".to_string(), period: 14, now: 1_700_000_000, look_back: 10 }
}

#[test]
fn rrg_windows() {
    assert_eq!(rrg("1H").window(), Ok((1_700_000_000 - 3600 * 66, 1_700_000_000)));
    assert_eq!(rrg("1D").window(), Ok((1_700_000_000 - 86400 * 66, 1_700_000_000)));
    assert_eq!(rrg("1W").window(), Ok((1_700_000_000 - 604800 * 66, 1_700_000_000)));
    assert_eq!(rrg("5").window(), Err(RrgError::UnsupportedResolution));
}

use vnscope::investing::{transpose_levels, HeatmapCandles, HeatmapError, HeatmapRequest};

fn heatmap(resolution: &str) -> HeatmapRequest {
    HeatmapRequest { resolution: resolution.to_string(), now: 1_000_000, look_back: 2, overlap: 0, number_of_levels: 3, interval_in_hour: 1 }
}

#[test]
fn heatmap_plans() {
    assert_eq!(heatmap("1H").plan(), Ok((1_000_000 - 7200, 1_000_000, HeatmapCandles::Minute)));
    assert_eq!(heatmap("1D").plan(), Ok((1_000_000 - 172800, 1_000_000, HeatmapCandles::Hour)));
    assert_eq!(heatmap("1W").plan(), Ok((1_000_000 - 1209600, 1_000_000, HeatmapCandles::Day)));
    assert_eq!(heatmap("1M").plan(), Err(HeatmapError::UnsupportedResolution));
    assert_eq!(HeatmapCandles::Minute.name(), "1m");
    assert_eq!(HeatmapCandles::Hour.name(), "1H");
    assert_eq!(HeatmapCandles::Day.name(), "1D");
}

#[test]
fn heatmap_rows_by_level() {
    let columns = vec![vec![1.0, 2.0, 3.0], vec![4.0], vec![5.0, 6.0, 7.0, 8.0]];
    let rows = transpose_levels(&columns, 3, 0.0);
    assert_eq!(rows, vec![vec![1.0, 4.0, 5.0], vec![2.0, 0.0, 6.0], vec![3.0, 0.0, 7.0]]);
    assert!(transpose_levels(&columns, 0, 0.0).is_empty());
}

use vnscope::investing::{current_and_yesterday, history_window, PriceFields, PriceQuery};

#[test]
fn market_list_price_queries() {
    let none = PriceFields::default();
    assert_eq!(none.price_query(), PriceQuery::Nothing);
    assert_eq!(PriceFields { buy: true, ..none }.price_query(), PriceQuery::Current);
    assert_eq!(PriceFields { trend: true, buy: true, ..none }.price_query(), PriceQuery::History { keep: true });
    assert_eq!(PriceFields { trend_data: true, ..none }.price_query(), PriceQuery::History { keep: true });
    assert_eq!(PriceFields { yesterday_sell: true, ..none }.price_query(), PriceQuery::History { keep: false });
    assert_eq!(PriceFields { diff_buy: true, sell: true, ..none }.price_query(), PriceQuery::History { keep: false });
}

#[test]
fn latest_prices_of_a_history() {
    assert_eq!(current_and_yesterday::<i32>(&vec![]), (None, None));
    assert_eq!(current_and_yesterday(&vec![5]), (Some(5), None));
    assert_eq!(current_and_yesterday(&vec![5, 6, 7]), (Some(7), Some(6)));
    assert_eq!(history_window(1_000_000, 7), (1_000_000 - 7 * 86400, 1_000_000));
}

use vnscope::investing::product_ids;

#[test]
fn product_id_lists() {
    assert_eq!(product_ids("1,2,3"), vec![1, 2, 3]);
    assert_eq!(product_ids(" 4 , x, -5,,+6 "), vec![4, -5, 6]);
    assert_eq!(product_ids(""), Vec::<i32>::new());
    assert_eq!(product_ids("99999999999,7"), vec![7]);
    assert_eq!(product_ids("\u{3000}8\t"), vec![8]);
}

#[test]
fn product_ids_trim_unicode_white_space() {
    assert_eq!(product_ids("\u{2003}7\u{3000},\u{85}8\n"), vec![7, 8]);
}
