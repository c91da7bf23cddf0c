use std::sync::Arc;
use vnscope::simulator::{Data, Phase, SimulatorError};

fn series(n: usize) -> Arc<Vec<u32>> {
    Arc::new((0..n as u32).collect())
}

#[test]
fn new_data_has_empty_window() {
    let data = Data::new(series(10), 3);
    assert_eq!(data.window(), 3);
    // split - begin = 0, minus 3 saturates to 0, plus 1
    assert_eq!(data.size(&Phase::Train), 1);
    assert_eq!(data.size(&Phase::Test), 1);
}

#[test]
fn shuttle_refuses_short_series() {
    let mut data = Data::new(series(5), 3);
    assert_eq!(
        data.shuttle(),
        Err(SimulatorError::NotEnoughCandles { have: 5, need: 6 })
    );
}

#[test]
fn shuttle_places_valid_window() {
    for _ in 0..50 {
        let mut data = Data::new(series(40), 4);
        assert_eq!(data.shuttle(), Ok(()));
        let train = data.size(&Phase::Train);
        let test = data.size(&Phase::Test);
        assert!(train >= 1 && test >= 1);
        for i in 0..train {
            let s = data.sample(i, &Phase::Train).unwrap();
            assert_eq!(s.len(), 4);
        }
        for i in 0..test {
            let s = data.sample(i, &Phase::Test).unwrap();
            assert_eq!(s.len(), 4);
        }
        assert_eq!(data.sample(train, &Phase::Train), Err(SimulatorError::OutOfRange));
    }
}

#[test]
fn samples_and_last_candles_follow_the_window() {
    let mut data = Data::new(series(20), 3);
    assert_eq!(data.place_window(2, 8, 15), Ok(()));
    // train: split - begin - range + 1 = 8 - 2 - 3 + 1 = 4
    assert_eq!(data.size(&Phase::Train), 4);
    // test: end - split - range + 1 = 15 - 8 - 3 + 1 = 5
    assert_eq!(data.size(&Phase::Test), 5);
    assert_eq!(data.sample(0, &Phase::Train), Ok(&[2u32, 3, 4][..]));
    assert_eq!(data.sample(3, &Phase::Train), Ok(&[5u32, 6, 7][..]));
    assert_eq!(data.sample(4, &Phase::Train), Err(SimulatorError::OutOfRange));
    assert_eq!(data.sample(1, &Phase::Test), Ok(&[9u32, 10, 11][..]));
    assert_eq!(data.last_candle(0, &Phase::Train), Ok(5));
    assert_eq!(data.last_candle(4, &Phase::Test), Ok(15));
    assert_eq!(data.last_candle(5, &Phase::Test), Err(SimulatorError::OutOfRange));
}

#[test]
fn test_samples_stay_inside_the_series() {
    let mut data = Data::new(series(10), 3);
    assert_eq!(data.place_window(0, 3, 10), Ok(()));
    // a test sample always fits inside a placed window
    assert_eq!(data.sample(4, &Phase::Test), Ok(&[7u32, 8, 9][..]));
    // a fresh window offers one test sample, from the start of the series
    let fresh = Data::new(series(4), 3);
    assert_eq!(fresh.sample(0, &Phase::Test), Ok(&[0u32, 1, 2][..]));
    let longer = Data::new(series(3), 3);
    assert_eq!(longer.sample(0, &Phase::Test), Ok(&[0u32, 1, 2][..]));
}

#[test]
fn place_window_refuses_bad_windows() {
    let mut data = Data::new(series(20), 3);
    assert_eq!(data.place_window(2, 4, 15), Err(SimulatorError::OutOfRange));
    assert_eq!(data.place_window(0, 3, 21), Err(SimulatorError::OutOfRange));
    assert_eq!(data.place_window(0, 3, 5), Err(SimulatorError::OutOfRange));
    assert_eq!(data.place_window(0, 3, 6), Ok(()));
}
