//! The service's health: the recent cron ticks it keeps and how it judges them.
use crate::text::{parse_i64, parse_integer};
use std::collections::VecDeque;
use vstd::prelude::*;

verus! {

/// What sending a tick to the cron scheduler gave.
#[derive(Clone, Copy, Debug, PartialEq, Eq, Structural)]
pub enum TickOutcome {
    /// The scheduler ran this many jobs.
    Triggered(usize),
    /// The scheduler answered with an error.
    Failed,
}

/// Whether a tick is recorded: always when the system is locked (no tick was sent, which
/// `outcome == None` stands for) or the scheduler failed; otherwise only when some job ran.
pub fn cron_updated(outcome: Option<TickOutcome>) -> (r: bool)
    ensures
        r == match outcome {
            Some(TickOutcome::Triggered(n)) => n > 0,
            _ => true,
        },
{
    match outcome {
        Some(TickOutcome::Triggered(n)) => n > 0,
        _ => true,
    }
}

/// The recent tick times after recording `now`: it goes last, and the oldest leaves when
/// more than `timeframe` are kept.
pub open spec fn recorded(ticks: Seq<i64>, now: i64, timeframe: usize) -> Seq<i64> {
    if ticks.len() + 1 > timeframe {
        ticks.push(now).drop_first()
    } else {
        ticks.push(now)
    }
}

/// Records a tick at `now`, keeping no more than `timeframe` of them (when at most
/// `timeframe` were kept before).
pub fn record_tick(ticks: &mut VecDeque<i64>, now: i64, timeframe: usize)
    requires
        old(ticks)@.len() < usize::MAX,
    ensures
        final(ticks)@ == recorded(old(ticks)@, now, timeframe),
{
    ticks.push_back(now);
    if ticks.len() > timeframe {
        let _ = ticks.pop_front();
    }
}

/// The tick window never grows past its timeframe once it is within it.
pub proof fn lemma_tick_window_bounded(ticks: Seq<i64>, now: i64, timeframe: usize)
    requires
        ticks.len() <= timeframe,
    ensures
        recorded(ticks, now, timeframe).len() <= timeframe || timeframe == 0,
        recorded(ticks, now, timeframe).last() == now || timeframe == 0,
{
}

/// `a - b`, clamped to the range of `i64`, as `i64::saturating_sub` computes it.
pub open spec fn saturating_difference(a: i64, b: i64) -> i64 {
    if a - b > i64::MAX {
        i64::MAX
    } else if a - b < i64::MIN {
        i64::MIN
    } else {
        (a - b) as i64
    }
}

fn saturating_sub_i64(a: i64, b: i64) -> (r: i64)
    ensures
        r == saturating_difference(a, b),
{
    let d: i128 = a as i128 - b as i128;
    if d > i64::MAX as i128 {
        i64::MAX
    } else if d < i64::MIN as i128 {
        i64::MIN
    } else {
        d as i64
    }
}

/// The limits a health check judges by.
#[derive(Clone, Copy, Debug, PartialEq, Eq, Structural)]
pub struct HealthLimits {
    pub max_inflight: i64,
    pub max_updated_time: i64,
}

/// A limit setting that is not an integer.
#[derive(Clone, Copy, Debug, PartialEq, Eq, Structural)]
pub enum LimitError {
    InvalidMaxInflight,
    InvalidMaxUpdatedTime,
}

/// What a limit setting gives: `2` when absent, its value when an integer, nothing else.
pub open spec fn limit_of(setting: Option<Seq<char>>) -> Option<int> {
    match setting {
        None => Some(2),
        Some(s) => parse_integer(s, true, i64::MIN as int, i64::MAX as int),
    }
}

impl HealthLimits {
    /// Reads `MAX_INFLIGHT` and `MAX_UPDATED_TIME` (each `2` when unset); a setting that is
    /// not an integer is refused, `MAX_INFLIGHT` first.
    pub fn from_settings(max_inflight: &Option<String>, max_updated_time: &Option<String>) -> (r: Result<HealthLimits, LimitError>)
        ensures
            ({
                let a = limit_of(match *max_inflight { Some(s) => Some(s@), None => None });
                let b = limit_of(match *max_updated_time { Some(s) => Some(s@), None => None });
                &&& a is None ==> r == Err::<HealthLimits, LimitError>(LimitError::InvalidMaxInflight)
                &&& a is Some && b is None ==> r == Err::<HealthLimits, LimitError>(LimitError::InvalidMaxUpdatedTime)
                &&& a is Some && b is Some ==> (r matches Ok(l) && l.max_inflight == a->0 && l.max_updated_time == b->0)
            }),
    {
        let a = match max_inflight {
            None => 2,
            Some(s) => match parse_i64(s.as_str()) {
                Some(v) => v,
                None => return Err(LimitError::InvalidMaxInflight),
            },
        };
        let b = match max_updated_time {
            None => 2,
            Some(s) => match parse_i64(s.as_str()) {
                Some(v) => v,
                None => return Err(LimitError::InvalidMaxUpdatedTime),
            },
        };
        Ok(HealthLimits { max_inflight: a, max_updated_time: b })
    }

    /// Whether the service is healthy at `current`: the last recorded tick (if any) is at
    /// most `max_updated_time` seconds old, and no more than `max_inflight` jobs are running
    /// beyond those done.
    pub fn healthy(&self, last_tick: Option<i64>, current: i64, running: i64, done: i64) -> (r: bool)
        requires
            last_tick matches Some(t) ==> i64::MIN <= current - t <= i64::MAX,
        ensures
            r == ((match last_tick {
                Some(t) => current - t <= self.max_updated_time,
                None => true,
            }) && saturating_difference(running, done) <= self.max_inflight),
    {
        let inflight = saturating_sub_i64(running, done);
        let fresh = match last_tick {
            Some(t) => current - t <= self.max_updated_time,
            None => true,
        };
        fresh && inflight <= self.max_inflight
    }
}

} // verus!
