//! Windows of candles for training and testing a trading simulation.
//!
//! A `Data` holds a shared series of candles and a window `[begin, end)` split at `split`:
//! the training phase samples windows of `range` candles starting in `[begin, split)`,
//! the testing phase samples those starting in `[split, end)`.
use rand::Rng;
use std::sync::Arc;
use vstd::prelude::*;

verus! {

/// Which half of the window a sample comes from.
#[derive(Clone, Copy, Debug, PartialEq, Eq, Structural)]
pub enum Phase {
    Test,
    Train,
}

/// Why a window could not be placed or sampled.
#[derive(Clone, Debug, PartialEq, Eq)]
pub enum SimulatorError {
    /// The series holds `have` candles but a window needs `need`.
    NotEnoughCandles { have: usize, need: usize },
    /// The requested sample lies outside the window or the series.
    OutOfRange,
}

/// A series of candles with a training and a testing window.
#[derive(Clone)]
pub struct Data<C> {
    candles: Arc<Vec<C>>,
    range: usize,
    begin: usize,
    split: usize,
    end: usize,
}

#[verifier::external_type_specification]
#[verifier::external_body]
pub struct ExThreadRng(rand::rngs::ThreadRng);

/// Calls `rand::thread_rng`, the handle of the thread-local generator. Nothing is claimed of it.
#[verifier::external_body]
pub(crate) fn thread_rng() -> (rng: rand::rngs::ThreadRng) {
    rand::thread_rng()
}

/// Calls `rand::Rng::gen_range` with the inclusive range `low..=high`, which is not empty.
/// As the documentation of `gen_range` says, the draw lies in that range; which value it
/// is, is left open.
#[verifier::external_body]
fn gen_range_inclusive(rng: &mut rand::rngs::ThreadRng, low: usize, high: usize) -> (r: usize)
    requires
        low <= high,
    ensures
        low <= r <= high,
{
    rng.gen_range(low..=high)
}

impl<C> Data<C> {
    /// The candles of the series.
    pub closed spec fn series(&self) -> Seq<C> {
        self.candles@
    }

    /// The number of candles in one sample.
    pub closed spec fn width(&self) -> usize {
        self.range
    }

    /// Where the training window starts.
    pub closed spec fn begin_at(&self) -> usize {
        self.begin
    }

    /// Where training ends and testing starts.
    pub closed spec fn split_at(&self) -> usize {
        self.split
    }

    /// Where the testing window ends.
    pub closed spec fn end_at(&self) -> usize {
        self.end
    }

    /// The index at which the samples of `phase` start.
    pub open spec fn base(&self, phase: Phase) -> usize {
        match phase {
            Phase::Train => self.begin_at(),
            Phase::Test => self.split_at(),
        }
    }

    /// How many samples `phase` offers, computed with saturating arithmetic.
    pub open spec fn size_of(&self, phase: Phase) -> usize {
        match phase {
            Phase::Train => self.split_at().saturating_sub(self.begin_at()).saturating_sub(self.width()).saturating_add(1),
            Phase::Test => self.end_at().saturating_sub(self.split_at()).saturating_sub(self.width()).saturating_add(1),
        }
    }

    /// Where sample `i` of `phase` starts.
    pub open spec fn sample_start(&self, i: usize, phase: Phase) -> usize {
        self.base(phase).saturating_add(i)
    }

    /// Where sample `i` of `phase` ends (exclusive).
    pub open spec fn sample_end(&self, i: usize, phase: Phase) -> usize {
        self.sample_start(i, phase).saturating_add(self.width())
    }

    /// A test sample that runs past the series falls back to its last `width()` candles;
    /// that fallback needs the series to hold at least `width()` candles.
    pub open spec fn sample_defined(&self, i: usize, phase: Phase) -> bool {
        (phase == Phase::Test && self.size_of(phase) > i && self.sample_end(i, phase) > self.series().len())
            ==> self.width() <= self.series().len()
    }

    /// A placement of the window that `shuttle` may draw.
    pub open spec fn valid_window(len: nat, range: usize, begin: usize, split: usize, end: usize) -> bool {
        &&& 2 * range <= end <= len
        &&& begin + 2 * range <= end
        &&& begin + range <= split
        &&& split + range <= end
    }
}

impl<C: Clone> Data<C> {
    /// A series with an empty window; samples are `range` candles wide.
    pub fn new(candles: Arc<Vec<C>>, range: usize) -> (data: Self)
        ensures
            data.series() == candles@,
            data.width() == range,
            data.begin_at() == 0,
            data.split_at() == 0,
            data.end_at() == 0,
    {
        Data { candles, range, begin: 0, split: 0, end: 0 }
    }

    /// The number of candles in one sample.
    pub fn window(&self) -> (r: usize)
        ensures
            r == self.width(),
    {
        self.range
    }

    /// The number of candles in the series.
    pub fn series_len(&self) -> (r: usize)
        ensures
            r == self.series().len(),
    {
        self.candles.len()
    }

    /// How many samples `phase` offers.
    pub fn size(&self, phase: &Phase) -> (r: usize)
        ensures
            r == self.size_of(*phase),
    {
        match phase {
            Phase::Train => self.split.saturating_sub(self.begin).saturating_sub(self.range).saturating_add(1),
            Phase::Test => self.end.saturating_sub(self.split).saturating_sub(self.range).saturating_add(1),
        }
    }

    /// Places the window at `[begin, end)` split at `split`, when that placement is one
    /// that `shuttle` may draw; otherwise leaves the data as it is and says why.
    pub fn place_window(&mut self, begin: usize, split: usize, end: usize) -> (r: Result<(), SimulatorError>)
        requires
            2 * old(self).width() <= usize::MAX,
        ensures
            final(self).series() == old(self).series(),
            final(self).width() == old(self).width(),
            (old(self).series().len() as int) < 2 * (old(self).width() as int) ==> r == Err::<(), SimulatorError>(
                SimulatorError::NotEnoughCandles { have: old(self).series().len() as usize, need: (2 * old(self).width()) as usize }),
            (old(self).series().len() as int) >= 2 * (old(self).width() as int) ==> (r is Ok <==> Self::valid_window(
                old(self).series().len(), old(self).width(), begin, split, end)),
            (old(self).series().len() as int) >= 2 * (old(self).width() as int) && r is Err ==> r == Err::<(), SimulatorError>(SimulatorError::OutOfRange),
            r is Ok ==> final(self).begin_at() == begin && final(self).split_at() == split && final(self).end_at() == end,
            r is Err ==> *final(self) == *old(self),
    {
        let len = self.candles.len();
        let need = 2 * self.range;
        if len < need {
            return Err(SimulatorError::NotEnoughCandles { have: len, need });
        }
        if need <= end && end <= len && begin <= end - need && split >= begin
            && self.range <= split - begin && split <= end - self.range {
            self.begin = begin;
            self.split = split;
            self.end = end;
            Ok(())
        } else {
            Err(SimulatorError::OutOfRange)
        }
    }

    /// Draws a new window at random: its end lies in `[2 * range, len]`, its begin leaves
    /// room for `2 * range` candles before the end, and the split leaves `range` candles on
    /// either side. A series shorter than `2 * range` candles is refused.
    pub fn shuttle(&mut self) -> (r: Result<(), SimulatorError>)
        requires
            2 * old(self).width() <= usize::MAX,
        ensures
            final(self).series() == old(self).series(),
            final(self).width() == old(self).width(),
            r is Ok <==> (old(self).series().len() as int) >= 2 * (old(self).width() as int),
            r is Err ==> r == Err::<(), SimulatorError>(SimulatorError::NotEnoughCandles {
                have: old(self).series().len() as usize, need: (2 * old(self).width()) as usize }),
            r is Err ==> *final(self) == *old(self),
            r is Ok ==> Self::valid_window(final(self).series().len(), final(self).width(),
                final(self).begin_at(), final(self).split_at(), final(self).end_at()),
    {
        let len = self.candles.len();
        let min_required = self.range * 2;
        if len < min_required {
            return Err(SimulatorError::NotEnoughCandles { have: len, need: min_required });
        }
        let mut rng = thread_rng();
        let end = gen_range_inclusive(&mut rng, min_required, len);
        let max_begin = end.saturating_sub(min_required);
        let begin = gen_range_inclusive(&mut rng, 0, max_begin);
        let min_split = begin.saturating_add(self.range);
        let max_split = end.saturating_sub(self.range);
        let split = if min_split <= max_split {
            gen_range_inclusive(&mut rng, min_split, max_split)
        } else {
            begin
        };
        let placed = self.place_window(begin, split, end);
        assert(placed is Ok);
        Ok(())
    }

    /// Sample `i` of `phase`: the `range` candles from `sample_start`. A training sample
    /// that runs past the series is refused; a testing sample that does takes the last
    /// `range` candles of the series instead. A sample past `size` is refused.
    pub fn sample(&self, i: usize, phase: &Phase) -> (r: Result<&[C], SimulatorError>)
        requires
            self.sample_defined(i, *phase),
        ensures
            r is Ok <==> self.size_of(*phase) > i && (*phase == Phase::Test
                || self.sample_end(i, *phase) <= self.series().len()),
            r is Err ==> r == Err::<&[C], SimulatorError>(SimulatorError::OutOfRange),
            r matches Ok(s) ==> s@ == if self.sample_end(i, *phase) <= self.series().len() {
                self.series().subrange(self.sample_start(i, *phase) as int, self.sample_end(i, *phase) as int)
            } else {
                self.series().subrange(self.series().len() - self.width(), self.series().len() as int)
            },
    {
        let start = match phase {
            Phase::Train => self.begin.saturating_add(i),
            Phase::Test => self.split.saturating_add(i),
        };
        let end_slice = start.saturating_add(self.range);
        let candles: &Vec<C> = &self.candles;
        let all: &[C] = candles.as_slice();
        if self.size(phase) > i {
            match phase {
                Phase::Train => {
                    if end_slice <= all.len() {
                        Ok(&all[start..end_slice])
                    } else {
                        Err(SimulatorError::OutOfRange)
                    }
                },
                Phase::Test => {
                    if end_slice <= all.len() {
                        Ok(&all[start..end_slice])
                    } else {
                        Ok(&all[(all.len() - self.range)..all.len()])
                    }
                },
            }
        } else {
            Err(SimulatorError::OutOfRange)
        }
    }

    /// The candle right after sample `i` of `phase`, when the sample exists and the series
    /// holds that candle.
    pub fn last_candle(&self, i: usize, phase: &Phase) -> (r: Result<C, SimulatorError>)
        ensures
            r is Ok <==> self.size_of(*phase) > i && self.sample_end(i, *phase) < self.series().len(),
            r is Err ==> r == Err::<C, SimulatorError>(SimulatorError::OutOfRange),
            r matches Ok(c) ==> cloned(self.series()[self.sample_end(i, *phase) as int], c),
    {
        let idx = match phase {
            Phase::Train => self.begin,
            Phase::Test => self.split,
        }.saturating_add(i).saturating_add(self.range);
        let candles: &Vec<C> = &self.candles;
        if self.size(phase) > i {
            if idx < candles.len() {
                Ok(candles[idx].clone())
            } else {
                Err(SimulatorError::OutOfRange)
            }
        } else {
            Err(SimulatorError::OutOfRange)
        }
    }
}

} // verus!
