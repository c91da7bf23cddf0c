//! The integer side of volume profiles: which candles each sliding window of time pins
//! covers, and how price columns, taken strongest first, gather into contiguous ranges.
use vstd::prelude::*;

verus! {

/// Why a profile cannot be windowed.
#[derive(Debug, PartialEq, Eq)]
pub enum WindowError {
    /// There are no candles.
    Empty,
    /// The candles span fewer pins than a window needs.
    OverlapTooLarge,
}

/// The pin (time bucket of `interval_in_hour` hours) of the time `t`, as Rust's `/` gives it.
pub open spec fn pin(t: i32, interval_in_hour: i32) -> int {
    quotient(t as int, interval_in_hour * 3600)
}

/// Whether an interval gives pins without overflow or division by zero.
pub open spec fn pin_interval_ok(interval_in_hour: i32) -> bool {
    &&& interval_in_hour != 0
    &&& i32::MIN <= interval_in_hour * 3600 <= i32::MAX
}

/// The first candle of each new pin among the first `k` candles, and the latest pin seen:
/// a candle starts a pin when its pin is later than every pin before it.
pub open spec fn pin_starts_upto(times: Seq<i32>, interval_in_hour: i32, k: int) -> (Seq<usize>, int)
    decreases k,
{
    if k <= 1 {
        (seq![0usize], pin(times[0], interval_in_hour))
    } else {
        let (starts, current) = pin_starts_upto(times, interval_in_hour, k - 1);
        let p = pin(times[k - 1], interval_in_hour);
        if p > current {
            (starts.push((k - 1) as usize), p)
        } else {
            (starts, current)
        }
    }
}

/// The first candle of each new pin.
pub open spec fn pin_starts(times: Seq<i32>, interval_in_hour: i32) -> Seq<usize> {
    pin_starts_upto(times, interval_in_hour, times.len() as int).0
}

/// The windows of `overlap` consecutive pins, each as the range of candles it covers; the
/// last window runs to the end of the candles.
pub open spec fn windows_of(starts: Seq<usize>, n: usize, overlap: usize) -> Seq<(usize, usize)> {
    Seq::new(
        (starts.len() - overlap + 1) as nat,
        |w: int|
            (starts[w], if w + overlap < starts.len() {
                starts[w + overlap]
            } else {
                n
            }),
    )
}

/// `a` divided by `b`, rounded toward zero, as Rust's `/` on integers gives it.
pub open spec fn quotient(a: int, b: int) -> int {
    let q = (if a < 0 { -a } else { a }) / (if b < 0 { -b } else { b });
    if (a < 0) != (b < 0) {
        -q
    } else {
        q
    }
}

/// The pin of `t`.
fn pin_of(t: i32, interval_in_hour: i32) -> (r: i32)
    requires
        pin_interval_ok(interval_in_hour),
    ensures
        r == pin(t, interval_in_hour),
{
    let width = interval_in_hour * 3600;
    let a = t as i64;
    let b = width as i64;
    let ua: i64 = if a < 0 { -a } else { a };
    let ub: i64 = if b < 0 { -b } else { b };
    let q = ua / ub;
    proof {
        assert(ub >= 2);
        assert(ua == 0 || q < ua) by (nonlinear_arith)
            requires
                ua >= 0,
                ub >= 2,
                q == ua / ub,
        {
        }
        assert(q >= 0) by (nonlinear_arith)
            requires
                ua >= 0,
                ub >= 2,
                q == ua / ub,
        {
        }
    }
    let r = if (a < 0) != (b < 0) { -q } else { q };
    r as i32
}

/// The candles each profile covers, as ranges of indices: with no overlap, one profile of
/// every candle; otherwise one per run of `overlap` consecutive pins of `interval_in_hour`
/// hours, sliding one pin at a time.
pub fn profile_windows(times: &[i32], interval_in_hour: i32, overlap: usize) -> (r: Result<Vec<(usize, usize)>, WindowError>)
    requires
        overlap > 0 && times@.len() > 0 ==> pin_interval_ok(interval_in_hour),
    ensures
        times@.len() == 0 ==> r == Err::<Vec<(usize, usize)>, WindowError>(WindowError::Empty),
        times@.len() > 0 && overlap == 0 ==> (r matches Ok(v) && v@ == seq![(0usize, times@.len() as usize)]),
        times@.len() > 0 && overlap > 0 ==> if pin_starts(times@, interval_in_hour).len() < overlap {
            r == Err::<Vec<(usize, usize)>, WindowError>(WindowError::OverlapTooLarge)
        } else {
            r matches Ok(v) && v@ == windows_of(pin_starts(times@, interval_in_hour), times@.len() as usize, overlap)
        },
{
    let n = times.len();
    if n == 0 {
        return Err(WindowError::Empty);
    }
    if overlap == 0 {
        let mut all = Vec::new();
        all.push((0usize, n));
        proof {
            assert(all@ =~= seq![(0usize, n)]);
        }
        return Ok(all);
    }
    let mut starts: Vec<usize> = Vec::new();
    starts.push(0);
    let mut current = pin_of(times[0], interval_in_hour);
    let mut i: usize = 1;
    proof {
        assert(starts@ =~= seq![0usize]);
    }
    while i < n
        invariant
            n == times@.len(),
            n > 0,
            pin_interval_ok(interval_in_hour),
            1 <= i <= n,
            (starts@, current as int) == pin_starts_upto(times@, interval_in_hour, i as int),
        decreases n - i,
    {
        let p = pin_of(times[i], interval_in_hour);
        if p > current {
            starts.push(i);
            current = p;
        }
        i = i + 1;
    }
    let k = starts.len();
    if k < overlap {
        return Err(WindowError::OverlapTooLarge);
    }
    let mut windows: Vec<(usize, usize)> = Vec::new();
    let mut w: usize = 0;
    let count = k - overlap + 1;
    while w < count
        invariant
            count == k - overlap + 1,
            k == starts@.len(),
            overlap <= k,
            overlap > 0,
            w <= k - overlap + 1,
            windows@ == windows_of(starts@, n, overlap).take(w as int),
        decreases k - overlap + 1 - w,
    {
        let end = if w + overlap < k {
            starts[w + overlap]
        } else {
            n
        };
        windows.push((starts[w], end));
        proof {
            assert(windows@ =~= windows_of(starts@, n, overlap).take(w + 1));
        }
        w = w + 1;
    }
    proof {
        assert(windows_of(starts@, n, overlap).take(w as int) =~= windows_of(starts@, n, overlap));
    }
    Ok(windows)
}


/// Whether the column `t` extends the range `r` (center, first column, last column) at
/// one of its ends.
pub open spec fn extends(t: int, r: (usize, usize, usize)) -> bool {
    t + 1 == r.1 || t - 1 == r.2
}

/// Whether range `j` comes before range `k` in center order (the earlier one first among
/// equal centers).
pub open spec fn before(s: Seq<(usize, usize, usize)>, j: int, k: int) -> bool {
    s[j].0 < s[k].0 || (s[j].0 == s[k].0 && j < k)
}

/// Whether range `j` is, in center order, the first range that `t` extends.
pub open spec fn first_extended_at(s: Seq<(usize, usize, usize)>, t: int, j: int) -> bool {
    &&& 0 <= j < s.len()
    &&& extends(t, s[j])
    &&& forall|k: int| 0 <= k < s.len() && k != j && extends(t, s[k]) ==> before(s, j, k)
}

/// The range `r` grown by the column `t` next to it.
pub open spec fn grown(r: (usize, usize, usize), t: usize) -> (usize, usize, usize) {
    if t + 1 == r.1 {
        (r.0, t, r.2)
    } else {
        (r.0, r.1, t)
    }
}

/// The ranges after the column `t`: the first range in center order that `t` extends
/// grows by it; otherwise `t` starts a range of its own, which fails where a range is
/// already centered on `t`.
pub open spec fn step(s: Seq<(usize, usize, usize)>, t: usize) -> Result<Seq<(usize, usize, usize)>, usize> {
    if exists|j: int| first_extended_at(s, t as int, j) {
        let j = choose|j: int| first_extended_at(s, t as int, j);
        Ok(s.update(j, grown(s[j], t)))
    } else if exists|j: int| 0 <= j < s.len() && s[j].0 == t {
        Err(t)
    } else {
        Ok(s.push((t, t, t)))
    }
}

/// The ranges the columns gather into, taken in `order`, in the order the ranges were
/// started; the first column that fails, where one does.
pub open spec fn gather(order: Seq<usize>) -> Result<Seq<(usize, usize, usize)>, usize>
    decreases order.len(),
{
    if order.len() == 0 {
        Ok(seq![])
    } else {
        match gather(order.drop_last()) {
            Err(t) => Err(t),
            Ok(s) => step(s, order.last()),
        }
    }
}

/// Whether taking the column `t` against the ranges `s` overflows: the ranges are scanned
/// with `t + 1`. (The scan also compares `t - 1` with each range's end; for column 0 that
/// wraps in a release build and matches no range, which is how `extends` reads it.)
pub open spec fn trips(s: Seq<(usize, usize, usize)>, t: usize) -> bool {
    s.len() > 0 && t == usize::MAX
}

/// Whether gathering `order` never overflows.
pub open spec fn gathers_without_overflow(order: Seq<usize>) -> bool {
    forall|k: int| 0 <= k < order.len() ==> (#[trigger] gather(order.take(k)) matches Ok(s) ==> !trips(s, order[k]))
}

/// A failed column ends the gathering.
proof fn lemma_gather_failure_stays(order: Seq<usize>, i: int, t: usize)
    requires
        0 <= i <= order.len(),
        gather(order.take(i)) == Err::<Seq<(usize, usize, usize)>, usize>(t),
    ensures
        gather(order) == Err::<Seq<(usize, usize, usize)>, usize>(t),
    decreases order.len() - i,
{
    if i < order.len() {
        assert(order.take(i + 1).drop_last() =~= order.take(i));
        lemma_gather_failure_stays(order, i + 1, t);
    } else {
        assert(order.take(i) =~= order);
    }
}

/// The ranges `s` after the column `t`.
fn step_exec(s: &mut Vec<(usize, usize, usize)>, t: usize) -> (r: Result<(), usize>)
    requires
        !trips(old(s)@, t),
    ensures
        match step(old(s)@, t) {
            Ok(n) => r is Ok && final(s)@ == n,
            Err(e) => r == Err::<(), usize>(e),
        },
{
    let ghost g = s@;
    let mut best: Option<usize> = None;
    let mut centered = false;
    let mut j: usize = 0;
    while j < s.len()
        invariant
            g == s@,
            !trips(g, t),
            j <= g.len(),
            match best {
                Some(b) => b < j && extends(t as int, g[b as int]) && forall|k: int|
                    0 <= k < j && k != b && extends(t as int, g[k]) ==> before(g, b as int, k),
                None => forall|k: int| 0 <= k < j ==> !extends(t as int, g[k]),
            },
            centered == exists|k: int| 0 <= k < j && g[k].0 == t,
        decreases g.len() - j,
    {
        let e = s[j];
        let touches = t + 1 == e.1 || (t >= 1 && t - 1 == e.2);
        proof {
            assert(touches == extends(t as int, g[j as int]));
        }
        if touches {
            match best {
                None => {
                    best = Some(j);
                },
                Some(b) => {
                    if e.0 < s[b].0 {
                        best = Some(j);
                        proof {
                            assert forall|k: int| 0 <= k < j + 1 && k != j && extends(t as int, g[k]) implies before(
                                g,
                                j as int,
                                k,
                            ) by {
                                if k != b as int {
                                    assert(before(g, b as int, k));
                                }
                            }
                        }
                    } else {
                        proof {
                            assert(before(g, b as int, j as int));
                        }
                    }
                },
            }
        }
        if e.0 == t {
            centered = true;
        }
        j = j + 1;
    }
    match best {
        Some(b) => {
            let e = s[b];
            let g2 = if t + 1 == e.1 {
                (e.0, t, e.2)
            } else {
                (e.0, e.1, t)
            };
            s.set(b, g2);
            proof {
                assert(first_extended_at(g, t as int, b as int));
                let c = choose|c: int| first_extended_at(g, t as int, c);
                if c != b as int {
                    assert(before(g, b as int, c));
                    assert(before(g, c, b as int));
                }
                assert(c == b as int);
            }
            Ok(())
        },
        None => {
            proof {
                assert forall|c: int| !first_extended_at(g, t as int, c) by {}
            }
            if centered {
                return Err(t);
            }
            s.push((t, t, t));
            Ok(())
        },
    }
}

/// The ranges that the price columns gather into when taken in `order` (strongest first):
/// each column joins the first range, in center order, that it sits next to, or starts a
/// range of its own; the ranges come in the order they were started. A column that would
/// start a range where one is already centered fails.
pub fn gather_ranges(order: &[usize]) -> (r: Result<Vec<(usize, usize, usize)>, usize>)
    requires
        gathers_without_overflow(order@),
    ensures
        match gather(order@) {
            Ok(s) => r matches Ok(v) && v@ == s,
            Err(t) => r == Err::<Vec<(usize, usize, usize)>, usize>(t),
        },
{
    let mut s: Vec<(usize, usize, usize)> = Vec::new();
    let mut i: usize = 0;
    proof {
        assert(order@.take(0) =~= Seq::<usize>::empty());
    }
    while i < order.len()
        invariant
            i <= order@.len(),
            gathers_without_overflow(order@),
            gather(order@.take(i as int)) == Ok::<Seq<(usize, usize, usize)>, usize>(s@),
        decreases order@.len() - i,
    {
        let t = order[i];
        proof {
            assert(order@.take(i + 1).drop_last() =~= order@.take(i as int));
            assert(order@.take(i + 1).last() == t);
            assert(gather(order@.take(i as int)) matches Ok(x) ==> !trips(x, order@[i as int]));
        }
        match step_exec(&mut s, t) {
            Ok(()) => {},
            Err(e) => {
                proof {
                    lemma_gather_failure_stays(order@, i + 1, e);
                }
                return Err(e);
            },
        }
        i = i + 1;
    }
    proof {
        assert(order@.take(i as int) =~= order@);
    }
    Ok(s)
}

/// Whether gathering `order` would overflow: the check to make before `gather_ranges`.
pub fn gather_overflows(order: &[usize]) -> (r: bool)
    ensures
        r == !gathers_without_overflow(order@),
{
    let mut s: Vec<(usize, usize, usize)> = Vec::new();
    let mut i: usize = 0;
    proof {
        assert(order@.take(0) =~= Seq::<usize>::empty());
    }
    while i < order.len()
        invariant
            i <= order@.len(),
            gather(order@.take(i as int)) == Ok::<Seq<(usize, usize, usize)>, usize>(s@),
            forall|k: int| 0 <= k < i ==> (#[trigger] gather(order@.take(k)) matches Ok(x) ==> !trips(x, order@[k])),
        decreases order@.len() - i,
    {
        let t = order[i];
        if trips_exec(&s, t) {
            return true;
        }
        proof {
            assert(order@.take(i + 1).drop_last() =~= order@.take(i as int));
            assert(order@.take(i + 1).last() == t);
        }
        match step_exec(&mut s, t) {
            Ok(()) => {},
            Err(e) => {
                proof {
                    assert forall|k: int| 0 <= k < order@.len() implies (#[trigger] gather(order@.take(k)) matches Ok(
                        x,
                    ) ==> !trips(x, order@[k])) by {
                        if k > i {
                            assert(order@.take(k).take(i + 1) =~= order@.take(i + 1));
                            lemma_gather_failure_stays(order@.take(k), i + 1, e);
                        }
                    }
                }
                return false;
            },
        }
        i = i + 1;
    }
    false
}

/// Whether taking `t` against the ranges `s` overflows.
fn trips_exec(s: &Vec<(usize, usize, usize)>, t: usize) -> (r: bool)
    ensures
        r == trips(s@, t),
{
    s.len() > 0 && t == usize::MAX
}

/// The pin starts begin at the first candle, increase, and stay within the candles seen.
proof fn lemma_pin_starts_upto(times: Seq<i32>, interval_in_hour: i32, k: int)
    requires
        1 <= k <= times.len(),
        times.len() <= usize::MAX,
    ensures
        pin_starts_upto(times, interval_in_hour, k).0.len() >= 1,
        pin_starts_upto(times, interval_in_hour, k).0[0] == 0,
        forall|j: int| 0 <= j < pin_starts_upto(times, interval_in_hour, k).0.len() ==> #[trigger] pin_starts_upto(
            times,
            interval_in_hour,
            k,
        ).0[j] < k,
        forall|a: int, b: int|
            0 <= a < b < pin_starts_upto(times, interval_in_hour, k).0.len() ==> #[trigger] pin_starts_upto(
                times,
                interval_in_hour,
                k,
            ).0[a] < #[trigger] pin_starts_upto(times, interval_in_hour, k).0[b],
    decreases k,
{
    if k > 1 {
        lemma_pin_starts_upto(times, interval_in_hour, k - 1);
        let prev = pin_starts_upto(times, interval_in_hour, k - 1).0;
        let now = pin_starts_upto(times, interval_in_hour, k).0;
        assert forall|j: int| 0 <= j < prev.len() implies #[trigger] prev[j] < k - 1 by {}
        if now.len() > prev.len() {
            assert(now == prev.push((k - 1) as usize));
            assert forall|a: int, b: int| 0 <= a < b < now.len() implies #[trigger] now[a] < #[trigger] now[b] by {
                if b < prev.len() {
                    assert(now[a] == prev[a] && now[b] == prev[b]);
                } else {
                    assert(now[a] == prev[a]);
                    assert(prev[a] < k - 1);
                    assert(now[b] == (k - 1) as usize);
                }
            }
        }
    }
}

/// The windows of a profile slide through the candles: the first starts at the first
/// candle, the last ends after the last candle, none is empty, and each starts later than
/// the one before.
pub proof fn lemma_windows_slide(times: Seq<i32>, interval_in_hour: i32, overlap: usize)
    requires
        times.len() > 0,
        times.len() <= usize::MAX,
        overlap >= 1,
        pin_starts(times, interval_in_hour).len() >= overlap,
    ensures
        windows_of(pin_starts(times, interval_in_hour), times.len() as usize, overlap).len() >= 1,
        windows_of(pin_starts(times, interval_in_hour), times.len() as usize, overlap)[0].0 == 0,
        windows_of(pin_starts(times, interval_in_hour), times.len() as usize, overlap).last().1 == times.len(),
        forall|w: int|
            0 <= w < windows_of(pin_starts(times, interval_in_hour), times.len() as usize, overlap).len() ==> #[trigger] windows_of(
                pin_starts(times, interval_in_hour),
                times.len() as usize,
                overlap,
            )[w].0 < windows_of(pin_starts(times, interval_in_hour), times.len() as usize, overlap)[w].1 <= times.len(),
        forall|w: int|
            0 <= w < windows_of(pin_starts(times, interval_in_hour), times.len() as usize, overlap).len() - 1
                ==> #[trigger] windows_of(pin_starts(times, interval_in_hour), times.len() as usize, overlap)[w].0
                < windows_of(pin_starts(times, interval_in_hour), times.len() as usize, overlap)[w + 1].0,
{
    let n = times.len() as int;
    lemma_pin_starts_upto(times, interval_in_hour, n);
    let starts = pin_starts(times, interval_in_hour);
    let ws = windows_of(starts, n as usize, overlap);
    assert forall|w: int| 0 <= w < ws.len() implies #[trigger] ws[w].0 < ws[w].1 <= n by {
        assert(starts[w] < n);
        if w + overlap < starts.len() {
            assert(starts[w] < starts[w + overlap]);
            assert(starts[w + overlap] < n);
        }
    }
    assert forall|w: int| 0 <= w < ws.len() - 1 implies #[trigger] ws[w].0 < ws[w + 1].0 by {
        assert(starts[w] < starts[w + 1]);
    }
    let last = ws.len() - 1;
    assert(!(last + overlap < starts.len()));
}

/// Whether the ranges hold their centers and do not overlap.
pub open spec fn ranges_sound(s: Seq<(usize, usize, usize)>) -> bool {
    &&& forall|j: int| 0 <= j < s.len() ==> #[trigger] s[j].1 <= s[j].0 <= s[j].2
    &&& forall|j: int, k: int| 0 <= j < s.len() && 0 <= k < s.len() && j != k ==> #[trigger] s[j].2 < #[trigger] s[k].1
        || s[k].2 < s[j].1
}

/// Whether the column `c` lies in one of the ranges.
pub open spec fn covered(s: Seq<(usize, usize, usize)>, c: usize) -> bool {
    exists|j: int| 0 <= j < s.len() && #[trigger] s[j].1 <= c <= s[j].2
}

/// Columns taken once each never fail to gather: they fall into ranges that hold their
/// centers, do not overlap, and cover exactly the columns taken.
pub proof fn lemma_gather_partitions(order: Seq<usize>)
    requires
        order.no_duplicates(),
    ensures
        gather(order) is Ok,
        ranges_sound(gather(order)->Ok_0),
        forall|c: usize| #[trigger] covered(gather(order)->Ok_0, c) <==> order.contains(c),
    decreases order.len(),
{
    if order.len() > 0 {
        let rest = order.drop_last();
        let t = order.last();
        assert(rest.no_duplicates()) by {
            assert forall|a: int, b: int| 0 <= a < rest.len() && 0 <= b < rest.len() && a != b implies rest[a] != rest[b] by {
                assert(rest[a] == order[a] && rest[b] == order[b]);
            }
        }
        lemma_gather_partitions(rest);
        let s = gather(rest)->Ok_0;
        assert(!rest.contains(t)) by {
            if rest.contains(t) {
                let a = choose|a: int| 0 <= a < rest.len() && rest[a] == t;
                assert(order[a] == order[order.len() - 1]);
            }
        }
        assert(!covered(s, t));
        assert forall|c: usize| #[trigger] order.contains(c) <==> rest.contains(c) || c == t by {
            if order.contains(c) && c != t {
                let a = choose|a: int| 0 <= a < order.len() && order[a] == c;
                assert(a != order.len() - 1);
                assert(rest[a] == c);
            }
            if rest.contains(c) {
                let a = choose|a: int| 0 <= a < rest.len() && rest[a] == c;
                assert(order[a] == c);
            }
            if c == t {
                assert(order[order.len() - 1] == t);
            }
        }
        if exists|j: int| first_extended_at(s, t as int, j) {
            let j = choose|j: int| first_extended_at(s, t as int, j);
            let g = grown(s[j], t);
            let n = s.update(j, g);
            assert(extends(t as int, s[j]));
            assert(n[j] == g);
            if t + 1 == s[j].1 {
                assert(g == (s[j].0, t, s[j].2));
            } else {
                assert(t - 1 == s[j].2);
                assert(g == (s[j].0, s[j].1, t));
            }
            assert(gather(order) == Ok::<Seq<(usize, usize, usize)>, usize>(n));
            assert(!(s[j].1 <= t && t <= s[j].2));
            assert forall|k: int| 0 <= k < n.len() implies #[trigger] n[k].1 <= n[k].0 <= n[k].2 by {
                if k != j {
                    assert(n[k] == s[k]);
                }
            }
            assert forall|a: int, b: int| 0 <= a < n.len() && 0 <= b < n.len() && a != b implies #[trigger] n[a].2
                < #[trigger] n[b].1 || n[b].2 < n[a].1 by {
                assert(s[a].2 < s[b].1 || s[b].2 < s[a].1);
                if a != j && b != j {
                    assert(n[a] == s[a] && n[b] == s[b]);
                } else if a == j {
                    assert(n[b] == s[b]);
                    assert(!(s[b].1 <= t && t <= s[b].2));
                } else {
                    assert(n[a] == s[a]);
                    assert(!(s[a].1 <= t && t <= s[a].2));
                }
            }
            assert forall|c: usize| covered(n, c) implies covered(s, c) || c == t by {
                let k = choose|k: int| 0 <= k < n.len() && #[trigger] n[k].1 <= c <= n[k].2;
                if k != j {
                    assert(s[k] == n[k]);
                    assert(s[k].1 <= c <= s[k].2);
                } else if c != t {
                    assert(s[j].1 <= c <= s[j].2);
                }
            }
            assert forall|c: usize| covered(s, c) || c == t implies covered(n, c) by {
                if c == t {
                    assert(n[j].1 <= c <= n[j].2);
                } else {
                    let k = choose|k: int| 0 <= k < s.len() && #[trigger] s[k].1 <= c <= s[k].2;
                    if k != j {
                        assert(n[k] == s[k]);
                    }
                    assert(n[k].1 <= c <= n[k].2);
                }
            }
        } else {
            assert forall|j: int| !(0 <= j < s.len() && s[j].0 == t) by {
                if 0 <= j < s.len() && s[j].0 == t {
                    assert(s[j].1 <= s[j].0 <= s[j].2);
                    assert(covered(s, t));
                }
            }
            let n = s.push((t, t, t));
            assert(gather(order) == Ok::<Seq<(usize, usize, usize)>, usize>(n));
            assert forall|k: int| 0 <= k < n.len() implies #[trigger] n[k].1 <= n[k].0 <= n[k].2 by {
                if k < s.len() {
                    assert(n[k] == s[k]);
                }
            }
            assert forall|a: int, b: int| 0 <= a < n.len() && 0 <= b < n.len() && a != b implies #[trigger] n[a].2
                < #[trigger] n[b].1 || n[b].2 < n[a].1 by {
                if a < s.len() && b < s.len() {
                    assert(n[a] == s[a] && n[b] == s[b]);
                    assert(s[a].2 < s[b].1 || s[b].2 < s[a].1);
                } else if a < s.len() {
                    assert(n[a] == s[a]);
                    assert(!(s[a].1 <= t && t <= s[a].2));
                } else {
                    assert(n[b] == s[b]);
                    assert(!(s[b].1 <= t && t <= s[b].2));
                }
            }
            assert forall|c: usize| covered(n, c) implies covered(s, c) || c == t by {
                let k = choose|k: int| 0 <= k < n.len() && #[trigger] n[k].1 <= c <= n[k].2;
                if k < s.len() {
                    assert(s[k] == n[k]);
                    assert(s[k].1 <= c <= s[k].2);
                } else {
                    assert(n[k] == (t, t, t));
                }
            }
            assert forall|c: usize| covered(s, c) || c == t implies covered(n, c) by {
                if c == t {
                    assert(n[s.len() as int] == (t, t, t));
                    assert(n[s.len() as int].1 <= c <= n[s.len() as int].2);
                } else {
                    let k = choose|k: int| 0 <= k < s.len() && #[trigger] s[k].1 <= c <= s[k].2;
                    assert(n[k] == s[k]);
                    assert(n[k].1 <= c <= n[k].2);
                }
            }
        }
    }
}


/// Whether the column `a` is taken before the column `b` in `order`.
pub open spec fn taken_before(order: Seq<usize>, a: usize, b: usize) -> bool {
    exists|i: int, j: int| 0 <= i < j < order.len() && #[trigger] order[i] == a && #[trigger] order[j] == b
}

/// Taken before in a prefix is taken before in the whole.
proof fn lemma_taken_before_extends(order: Seq<usize>, a: usize, b: usize)
    requires
        order.len() > 0,
        taken_before(order.drop_last(), a, b),
    ensures
        taken_before(order, a, b),
{
    let rest = order.drop_last();
    let (i, j) = choose|i: int, j: int| 0 <= i < j < rest.len() && #[trigger] rest[i] == a && #[trigger] rest[j] == b;
    assert(order[i] == a && order[j] == b);
}

/// Each range is centered on the first of its columns to be taken, and the ranges come in
/// the order their centers were taken: with the columns taken strongest first, each range
/// is centered on its strongest column, and the ranges come strongest first.
pub proof fn lemma_gather_centers(order: Seq<usize>)
    requires
        order.no_duplicates(),
    ensures
        gather(order) is Ok,
        forall|j: int, c: usize|
            0 <= j < gather(order)->Ok_0.len() && gather(order)->Ok_0[j].1 <= c <= gather(order)->Ok_0[j].2 && c
                != gather(order)->Ok_0[j].0 ==> #[trigger] taken_before(order, gather(order)->Ok_0[j].0, c),
        forall|j: int, k: int|
            0 <= j < k < gather(order)->Ok_0.len() ==> #[trigger] taken_before(
                order,
                gather(order)->Ok_0[j].0,
                gather(order)->Ok_0[k].0,
            ),
    decreases order.len(),
{
    lemma_gather_partitions(order);
    if order.len() > 0 {
        let rest = order.drop_last();
        let t = order.last();
        let last = order.len() - 1;
        assert(rest.no_duplicates()) by {
            assert forall|a: int, b: int| 0 <= a < rest.len() && 0 <= b < rest.len() && a != b implies rest[a] != rest[b] by {
                assert(rest[a] == order[a] && rest[b] == order[b]);
            }
        }
        lemma_gather_partitions(rest);
        lemma_gather_centers(rest);
        let s = gather(rest)->Ok_0;
        let n = gather(order)->Ok_0;
        assert(!rest.contains(t)) by {
            if rest.contains(t) {
                let a = choose|a: int| 0 <= a < rest.len() && rest[a] == t;
                assert(order[a] == order[last]);
            }
        }
        // A column of the earlier ranges is taken before `t`.
        assert forall|c: usize| #[trigger] covered(s, c) implies taken_before(order, c, t) by {
            assert(rest.contains(c));
            let a = choose|a: int| 0 <= a < rest.len() && rest[a] == c;
            assert(order[a] == c && order[last] == t);
        }
        assert forall|j: int| 0 <= j < s.len() implies #[trigger] covered(s, s[j].0) by {
            assert(s[j].1 <= s[j].0 <= s[j].2);
        }
        if exists|j: int| first_extended_at(s, t as int, j) {
            let g = choose|j: int| first_extended_at(s, t as int, j);
            assert(n == s.update(g, grown(s[g], t)));
            assert forall|j: int, c: usize|
                0 <= j < n.len() && n[j].1 <= c <= n[j].2 && c != n[j].0 implies #[trigger] taken_before(order, n[j].0, c) by {
                assert(n[j].0 == s[j].0);
                if j != g {
                    assert(n[j] == s[j]);
                    lemma_taken_before_extends(order, s[j].0, c);
                } else if c == t {
                    assert(covered(s, s[j].0));
                } else {
                    assert(extends(t as int, s[g]));
                    assert(s[j].1 <= c <= s[j].2);
                    lemma_taken_before_extends(order, s[j].0, c);
                }
            }
            assert forall|j: int, k: int| 0 <= j < k < n.len() implies #[trigger] taken_before(order, n[j].0, n[k].0) by {
                assert(n[j].0 == s[j].0 && n[k].0 == s[k].0);
                lemma_taken_before_extends(order, s[j].0, s[k].0);
            }
        } else {
            assert(n == s.push((t, t, t)));
            assert forall|j: int, c: usize|
                0 <= j < n.len() && n[j].1 <= c <= n[j].2 && c != n[j].0 implies #[trigger] taken_before(order, n[j].0, c) by {
                if j < s.len() {
                    assert(n[j] == s[j]);
                    lemma_taken_before_extends(order, s[j].0, c);
                }
            }
            assert forall|j: int, k: int| 0 <= j < k < n.len() implies #[trigger] taken_before(order, n[j].0, n[k].0) by {
                assert(n[j] == s[j]);
                if k < s.len() {
                    assert(n[k] == s[k]);
                    lemma_taken_before_extends(order, s[j].0, s[k].0);
                } else {
                    assert(n[k].0 == t);
                    assert(covered(s, s[j].0));
                }
            }
        }
    }
}

} // verus!
