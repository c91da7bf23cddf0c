use std::collections::VecDeque;
use vnscope::health::{cron_updated, record_tick, HealthLimits, LimitError, TickOutcome};

#[test]
fn ticks_are_recorded_when_jobs_ran_or_nothing_was_sent() {
    assert!(cron_updated(None));
    assert!(cron_updated(Some(TickOutcome::Failed)));
    assert!(cron_updated(Some(TickOutcome::Triggered(2))));
    assert!(!cron_updated(Some(TickOutcome::Triggered(0))));
}

#[test]
fn tick_window_keeps_the_latest() {
    let mut ticks = VecDeque::new();
    for t in 1..=5 {
        record_tick(&mut ticks, t, 3);
    }
    assert_eq!(ticks.into_iter().collect::<Vec<_>>(), vec![3, 4, 5]);
}

#[test]
fn health_limits_and_verdict() {
    let limits = HealthLimits::from_settings(&None, &None).unwrap();
    assert_eq!(limits, HealthLimits { max_inflight: 2, max_updated_time: 2 });
    assert_eq!(
        HealthLimits::from_settings(&Some("x".into()), &Some("y".into())),
        Err(LimitError::InvalidMaxInflight)
    );
    assert_eq!(
        HealthLimits::from_settings(&Some("5".into()), &Some("y".into())),
        Err(LimitError::InvalidMaxUpdatedTime)
    );
    let limits = HealthLimits::from_settings(&Some("5".into()), &Some("60".into())).unwrap();
    assert!(limits.healthy(None, 100, 3, 0));
    assert!(limits.healthy(Some(50), 100, 7, 2));
    assert!(!limits.healthy(Some(30), 100, 0, 0));
    assert!(!limits.healthy(Some(90), 100, 6, 0));
    assert!(limits.healthy(Some(90), 100, i64::MIN, 1));
}
