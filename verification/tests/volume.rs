use vnscope::volume::{gather_overflows, gather_ranges, profile_windows, WindowError};

const DAYS: [i32; 6] = [1000000000, 1000010000, 1000086400, 1000096400, 1000172800, 1000182800];

#[test]
fn windows_slide_by_day() {
    assert_eq!(profile_windows(&DAYS, 24, 0), Ok(vec![(0, 6)]));
    assert_eq!(profile_windows(&DAYS, 24, 1), Ok(vec![(0, 2), (2, 4), (4, 6)]));
    // Two-day windows: days one and two, then days two and three.
    assert_eq!(profile_windows(&DAYS, 24, 2), Ok(vec![(0, 4), (2, 6)]));
    assert_eq!(profile_windows(&DAYS, 24, 3), Ok(vec![(0, 6)]));
    assert_eq!(profile_windows(&DAYS, 24, 4), Err(WindowError::OverlapTooLarge));
    assert_eq!(profile_windows(&[], 24, 2), Err(WindowError::Empty));
}

#[test]
fn an_earlier_candle_does_not_start_a_pin() {
    // The third candle falls back into the first day; only later days start pins.
    let times = [86400, 2 * 86400, 86400 + 5, 3 * 86400];
    assert_eq!(profile_windows(&times, 24, 1), Ok(vec![(0, 1), (1, 3), (3, 4)]));
}

#[test]
fn negative_intervals_divide_toward_zero() {
    let times = [-7200, -3600, 0, 3600];
    // Pins of one hour counted backwards: 2, 1, 0, -1; none is later than the first.
    assert_eq!(profile_windows(&times, -1, 1), Ok(vec![(0, 4)]));
}

#[test]
fn columns_gather_into_ranges_around_the_strongest() {
    assert_eq!(gather_ranges(&[2, 3, 1, 5, 0]), Ok(vec![(2, 0, 3), (5, 5, 5)]));
    // A column between two ranges joins the one with the lower center.
    assert_eq!(gather_ranges(&[0, 2, 1]), Ok(vec![(0, 0, 1), (2, 2, 2)]));
    assert_eq!(gather_ranges(&[]), Ok(vec![]));
}

#[test]
fn a_repeated_column_fails() {
    assert!(!gather_overflows(&[3, 3]));
    assert_eq!(gather_ranges(&[3, 3]), Err(3));
}

#[test]
fn column_zero_starts_its_own_range_unless_column_one_has_one() {
    assert!(!gather_overflows(&[2, 0, 1]));
    assert_eq!(gather_ranges(&[2, 0, 1]), Ok(vec![(2, 2, 2), (0, 0, 1)]));
    assert_eq!(gather_ranges(&[1, 0]), Ok(vec![(1, 0, 1)]));
    assert_eq!(gather_ranges(&[0, 1]), Ok(vec![(0, 0, 1)]));
}

#[test]
fn the_last_column_index_overflows() {
    assert!(gather_overflows(&[0, usize::MAX]));
    assert!(!gather_overflows(&[usize::MAX]));
}
