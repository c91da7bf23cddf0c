//! The block cache of a price series: candles of one stock at one resolution, grouped by
//! the week their time falls in, the weeks kept in a least-recently-used cache.
//!
//! A candle is a pair of its time (seconds since the Unix epoch) and its payload.
use crate::lru::{after_get, after_put, keys_of, lemma_position_of, position_of, touched, LruCache};
use vstd::prelude::*;

verus! {

broadcast use vstd::std_specs::hash::group_hash_axioms;

/// The seconds of one block: a week.
pub const BLOCK_SECONDS: i64 = 604800;

/// Integer division rounding toward zero, as Rust's `/` does.
pub open spec fn trunc_div(a: int, b: int) -> int {
    if a >= 0 {
        a / b
    } else {
        -((-a) / b)
    }
}

/// The remainder that goes with `trunc_div`, as Rust's `%` gives it.
pub open spec fn trunc_rem(a: int, b: int) -> int {
    if a >= 0 {
        a % b
    } else {
        -((-a) % b)
    }
}

/// The block that the time `t` falls in.
pub open spec fn block_of(t: int) -> int {
    trunc_div(t, BLOCK_SECONDS as int)
}

/// The entries of a cache of blocks, with each block's candles as a sequence.
pub open spec fn blocks_view<C>(s: Seq<(i64, Vec<(i32, C)>)>) -> Seq<(i64, Seq<(i32, C)>)> {
    s.map_values(|e: (i64, Vec<(i32, C)>)| (e.0, e.1@))
}

/// The candles held under block `b`, where `b` is held.
pub open spec fn block_candles<C>(s: Seq<(i64, Seq<(i32, C)>)>, b: i64) -> Seq<(i32, C)> {
    s[position_of(s, b)].1
}

/// Taking the view of the candles keeps the keys.
proof fn lemma_view_keys<C>(s: Seq<(i64, Vec<(i32, C)>)>)
    ensures
        keys_of(blocks_view(s)) == keys_of(s),
        blocks_view(s).len() == s.len(),
{
    assert(keys_of(blocks_view(s)) =~= keys_of(s));
}

/// A lookup and the view of the candles commute.
proof fn lemma_view_after_get<C>(s: Seq<(i64, Vec<(i32, C)>)>, k: i64)
    ensures
        blocks_view(after_get(s, k)) == after_get(blocks_view(s), k),
{
    lemma_view_keys(s);
    if keys_of(s).contains(k) {
        let p = position_of(s, k);
        assert(blocks_view(after_get(s, k)) =~= after_get(blocks_view(s), k));
    }
}

/// A put and the view of the candles commute.
proof fn lemma_view_after_put<C>(s: Seq<(i64, Vec<(i32, C)>)>, cap: nat, k: i64, v: Vec<(i32, C)>)
    ensures
        blocks_view(after_put(s, cap, k, v)) == after_put(blocks_view(s), cap, k, v@),
{
    lemma_view_keys(s);
    if keys_of(s).contains(k) {
        assert(blocks_view(after_put(s, cap, k, v)) =~= after_put(blocks_view(s), cap, k, v@));
    } else if cap == 0 {
    } else if s.len() >= cap {
        assert(blocks_view(after_put(s, cap, k, v)) =~= after_put(blocks_view(s), cap, k, v@));
    } else {
        assert(blocks_view(after_put(s, cap, k, v)) =~= after_put(blocks_view(s), cap, k, v@));
    }
}

/// Whether the scan of block `i` stops after the block's first candle: under a positive
/// `limit`, once the block starts later than `limit` seconds after the epoch (the start
/// taken as an unsigned size).
pub open spec fn cut_short(i: int, limit: usize) -> bool {
    limit > 0 && ((i * BLOCK_SECONDS) as usize) > limit
}

/// What the scan of one block's candles picks: the candles in `[from, to)`, in order, up to
/// the first candle at or after `to` (or only the first candle, where the scan is cut short).
pub open spec fn block_picks<C>(c: Seq<(i32, C)>, from: int, to: int, cut: bool) -> Seq<(i32, C)>
    decreases c.len(),
{
    if c.len() == 0 {
        seq![]
    } else {
        let t = c[0].0 as int;
        let head = if from <= t && t < to { seq![c[0]] } else { seq![] };
        if t >= to || cut {
            head
        } else {
            head + block_picks(c.drop_first(), from, to, cut)
        }
    }
}

/// The earliest time among the candles, or `init` where it is earlier.
pub open spec fn earliest<C>(s: Seq<(i32, C)>, init: int) -> int
    decreases s.len(),
{
    if s.len() == 0 {
        init
    } else {
        let m = earliest(s.drop_last(), init);
        if (s.last().0 as int) < m { s.last().0 as int } else { m }
    }
}

/// The latest time among the candles, or `init` where it is later.
pub open spec fn latest<C>(s: Seq<(i32, C)>, init: int) -> int
    decreases s.len(),
{
    if s.len() == 0 {
        init
    } else {
        let m = latest(s.drop_last(), init);
        if (s.last().0 as int) > m { s.last().0 as int } else { m }
    }
}

/// A scan of the blocks `i..=last_block` of the cache `s` for the candles in `[from, to)`:
/// the candles picked, block by block; the first block that is not cached, where the scan
/// stops; and the cache afterwards, in which each block read has become the most recent.
pub open spec fn scan_blocks<C>(
    s: Seq<(i64, Seq<(i32, C)>)>,
    i: int,
    last_block: int,
    from: int,
    to: int,
    limit: usize,
) -> (Seq<(i32, C)>, Option<int>, Seq<(i64, Seq<(i32, C)>)>)
    decreases last_block + 1 - i,
{
    if i > last_block {
        (seq![], None, s)
    } else if !keys_of(s).contains(i as i64) {
        (seq![], Some(i), s)
    } else {
        let rest = scan_blocks(after_get(s, i as i64), i + 1, last_block, from, to, limit);
        (block_picks(block_candles(s, i as i64), from, to, cut_short(i, limit)) + rest.0, rest.1, rest.2)
    }
}

/// The first block a scan of `[from, to)` reads: the block of `from`, or the one before it
/// when `from` is not the start of a block.
pub open spec fn first_block(from: int) -> int {
    trunc_div(from, BLOCK_SECONDS as int) - if trunc_rem(from, BLOCK_SECONDS as int) != 0 { 1int } else { 0 }
}

/// The last block a scan of `[from, to)` reads: the block of `to`, or the one after it when
/// `to` is not the start of a block.
pub open spec fn last_block(to: int) -> int {
    trunc_div(to, BLOCK_SECONDS as int) + if trunc_rem(to, BLOCK_SECONDS as int) != 0 { 1int } else { 0 }
}

/// Whether the block starts a scan of `[from, to)` computes stay within `i64`.
pub open spec fn scan_fits(from: i64, to: i64) -> bool {
    first_block(from as int) <= last_block(to as int) ==> {
        &&& i64::MIN <= (first_block(from as int) - 1) * BLOCK_SECONDS
        &&& last_block(to as int) * BLOCK_SECONDS <= i64::MAX
    }
}

/// A lookup keeps the blocks distinct, the same blocks held, and each block's candles.
proof fn lemma_lookup_keeps_blocks<C>(s: Seq<(i64, Seq<(i32, C)>)>, k: i64)
    requires
        keys_of(s).no_duplicates(),
    ensures
        keys_of(after_get(s, k)).no_duplicates(),
        forall|b: i64| keys_of(after_get(s, k)).contains(b) == keys_of(s).contains(b),
        forall|b: i64| keys_of(s).contains(b) ==> block_candles(after_get(s, k), b) == block_candles(s, b),
{
    if keys_of(s).contains(k) {
        let p = position_of(s, k);
        let t = touched(s, p);
        assert(0 <= p < s.len());
        let ks = keys_of(s);
        let kt = keys_of(t);
        assert(t.len() == s.len());
        assert forall|j: int| 0 <= j < t.len() implies t[j] == s[if j == 0 { p } else if j - 1 < p { j - 1 } else { j }] by {}
        assert forall|x: int, y: int| 0 <= x < kt.len() && 0 <= y < kt.len() && x != y implies kt[x] != kt[y] by {
            let fx = if x == 0 { p } else if x - 1 < p { x - 1 } else { x };
            let fy = if y == 0 { p } else if y - 1 < p { y - 1 } else { y };
            assert(kt[x] == ks[fx] && kt[y] == ks[fy]);
        }
        assert(kt.no_duplicates());
        assert forall|b: i64| kt.contains(b) == ks.contains(b) by {
            if kt.contains(b) {
                let j = choose|j: int| 0 <= j < kt.len() && kt[j] == b;
                let fj = if j == 0 { p } else if j - 1 < p { j - 1 } else { j };
                assert(ks[fj] == b);
            }
            if ks.contains(b) {
                let q = choose|q: int| 0 <= q < ks.len() && ks[q] == b;
                let g = if q == p { 0 } else if q < p { q + 1 } else { q };
                assert(kt[g] == b);
            }
        }
        assert forall|b: i64| ks.contains(b) implies block_candles(t, b) == block_candles(s, b) by {
            let q = position_of(s, b);
            lemma_position_of(s, q);
            let g = if q == p { 0 } else if q < p { q + 1 } else { q };
            assert(t[g] == s[q]);
            lemma_position_of(t, g);
        }
    }
}

/// Each cached block read in turn, from block `i` up to block `b`, gives its first candle
/// to the scan where that candle lies in the window.
proof fn lemma_scan_head<C>(
    s: Seq<(i64, Seq<(i32, C)>)>,
    i: int,
    last: int,
    from: int,
    to: int,
    limit: usize,
    b: int,
)
    requires
        keys_of(s).no_duplicates(),
        i <= b <= last,
        forall|j: int| i <= j <= b ==> #[trigger] keys_of(s).contains(j as i64),
        block_candles(s, b as i64).len() > 0,
        from <= block_candles(s, b as i64)[0].0 < to,
    ensures
        scan_blocks(s, i, last, from, to, limit).0.contains(block_candles(s, b as i64)[0]),
    decreases b - i,
{
    let c = block_candles(s, i as i64);
    let picks = block_picks(c, from, to, cut_short(i, limit));
    let rest = scan_blocks(after_get(s, i as i64), i + 1, last, from, to, limit);
    assert(keys_of(s).contains(i as i64));
    assert(scan_blocks(s, i, last, from, to, limit).0 == picks + rest.0);
    if i == b {
        assert(picks[0] == c[0]);
        assert((picks + rest.0)[0] == c[0]);
    } else {
        lemma_lookup_keeps_blocks(s, i as i64);
        let s2 = after_get(s, i as i64);
        assert(keys_of(s).contains(b as i64));
        assert forall|j: int| i + 1 <= j <= b implies #[trigger] keys_of(s2).contains(j as i64) by {
            assert(keys_of(s).contains(j as i64));
        }
        lemma_scan_head(s2, i + 1, last, from, to, limit, b);
        let x = block_candles(s, b as i64)[0];
        let k = choose|k: int| 0 <= k < rest.0.len() && rest.0[k] == x;
        assert((picks + rest.0)[picks.len() + k] == x);
    }
}

/// A scan never loses the first candle of a block it reads, whatever the limit: where
/// every block from the scan's first block up to block `b` is cached, the first candle of
/// block `b`, if its time lies in `[from, to)`, is among the candles the scan returns.
pub proof fn lemma_scan_keeps_block_heads<C>(
    s: Seq<(i64, Seq<(i32, C)>)>,
    from: i64,
    to: i64,
    limit: usize,
    b: int,
)
    requires
        keys_of(s).no_duplicates(),
        first_block(from as int) <= b <= last_block(to as int),
        forall|j: int| first_block(from as int) <= j <= b ==> #[trigger] keys_of(s).contains(j as i64),
        block_candles(s, b as i64).len() > 0,
        from <= block_candles(s, b as i64)[0].0 < to,
    ensures
        scan_blocks(s, first_block(from as int), last_block(to as int), from as int, to as int, limit).0.contains(
            block_candles(s, b as i64)[0],
        ),
{
    lemma_scan_head(s, first_block(from as int), last_block(to as int), from as int, to as int, limit, b);
}

/// What one block's scan picks lies in `[from, to)`.
proof fn lemma_picks_in_window<C>(c: Seq<(i32, C)>, from: int, to: int, cut: bool)
    ensures
        forall|k: int| 0 <= k < block_picks(c, from, to, cut).len() ==> from <= #[trigger] block_picks(c, from, to, cut)[k].0 < to,
    decreases c.len(),
{
    if c.len() > 0 {
        lemma_picks_in_window(c.drop_first(), from, to, cut);
        let t = c[0].0 as int;
        let head = if from <= t && t < to { seq![c[0]] } else { seq![] };
        let tail = block_picks(c.drop_first(), from, to, cut);
        let all = block_picks(c, from, to, cut);
        if !(t >= to || cut) {
            assert(all == head + tail);
            assert forall|k: int| 0 <= k < all.len() implies from <= #[trigger] all[k].0 < to by {
                if k < head.len() {
                    assert(all[k] == head[k]);
                } else {
                    assert(all[k] == tail[k - head.len()]);
                }
            }
        }
    }
}

/// Every candle a scan returns lies in `[from, to)`, whatever the cache holds and whatever
/// the limit.
pub proof fn lemma_scan_in_window<C>(
    s: Seq<(i64, Seq<(i32, C)>)>,
    i: int,
    last: int,
    from: int,
    to: int,
    limit: usize,
)
    ensures
        forall|k: int| 0 <= k < scan_blocks(s, i, last, from, to, limit).0.len() ==> from <= #[trigger] scan_blocks(s, i, last, from, to, limit).0[k].0 < to,
    decreases last + 1 - i,
{
    if i <= last && keys_of(s).contains(i as i64) {
        let picks = block_picks(block_candles(s, i as i64), from, to, cut_short(i, limit));
        lemma_picks_in_window(block_candles(s, i as i64), from, to, cut_short(i, limit));
        lemma_scan_in_window(after_get(s, i as i64), i + 1, last, from, to, limit);
        let rest = scan_blocks(after_get(s, i as i64), i + 1, last, from, to, limit);
        let all = scan_blocks(s, i, last, from, to, limit).0;
        assert(all == picks + rest.0);
        assert forall|k: int| 0 <= k < all.len() implies from <= #[trigger] all[k].0 < to by {
            if k < picks.len() {
                assert(all[k] == picks[k]);
            } else {
                assert(all[k] == rest.0[k - picks.len()]);
            }
        }
    }
}

/// What a scan of the cache found.
pub struct Scan<C> {
    /// The cached candles in `[from, to)`, block by block.
    pub candles: Vec<(i32, C)>,
    /// The earliest time picked, or `to` when nothing was.
    pub first: i64,
    /// The latest time picked, or the asked `from` when nothing was.
    pub last: i64,
    /// Where fetching should start: the start of the block before the first block that is
    /// not cached, or the asked `from` when every block was.
    pub from: i64,
    pub to: i64,
    /// Whether every block the scan reads was cached.
    pub complete: bool,
}

impl<C> Scan<C> {
    /// Whether the cached candles answer the request: every block was cached, the candles
    /// cover enough of the window (as the caller judged), or there is nothing left to fetch.
    pub fn answers(&self, covered: bool) -> (r: bool)
        ensures
            r == (self.complete || covered || self.from > self.to),
    {
        self.complete || covered || self.from > self.to
    }
}

/// The window to fetch when nothing is cached for the series: from the start of the block
/// before the block of `from` to the start of the block after the block of `to`.
pub open spec fn uncached_window(from: int, to: int) -> (int, int) {
    ((trunc_div(from, BLOCK_SECONDS as int) - 1) * BLOCK_SECONDS, (trunc_div(to, BLOCK_SECONDS as int) + 1)
        * BLOCK_SECONDS)
}

/// The window to fetch when nothing is cached for the series.
pub fn fetch_window(from: i64, to: i64) -> (r: (i64, i64))
    requires
        i64::MIN <= uncached_window(from as int, to as int).0,
        uncached_window(from as int, to as int).1 <= i64::MAX,
    ensures
        r.0 == uncached_window(from as int, to as int).0,
        r.1 == uncached_window(from as int, to as int).1,
{
    let b = BLOCK_SECONDS;
    let lo = from / b - 1;
    let hi = to / b + 1;
    (lo * b, hi * b)
}

/// How many candles to ask a provider for: under a positive limit, two blocks' worth more
/// than asked; zero (no limit) otherwise.
pub fn fetch_limit(limit: usize) -> (r: usize)
    requires
        limit + 2 * BLOCK_SECONDS <= usize::MAX,
    ensures
        r == if limit > 0 { limit + 2 * BLOCK_SECONDS } else { 0 },
{
    if limit > 0 {
        limit + (BLOCK_SECONDS as usize) * 2
    } else {
        0
    }
}

/// `ids` with `b` put in its place: before the first id that is not smaller, unless that
/// id is `b` itself.
pub open spec fn insert_sorted(ids: Seq<i64>, b: i64) -> Seq<i64>
    decreases ids.len(),
{
    if ids.len() == 0 {
        seq![b]
    } else if b < ids[0] {
        seq![b] + ids
    } else if b == ids[0] {
        ids
    } else {
        seq![ids[0]] + insert_sorted(ids.drop_first(), b)
    }
}

/// The blocks the candles fall in, in increasing order, each once.
pub open spec fn sorted_blocks<C>(candles: Seq<(i32, C)>) -> Seq<i64>
    decreases candles.len(),
{
    if candles.len() == 0 {
        seq![]
    } else {
        insert_sorted(sorted_blocks(candles.drop_last()), block_of(candles.last().0 as int) as i64)
    }
}

/// The candles that fall in block `b`, in their order.
pub open spec fn block_members<C>(candles: Seq<(i32, C)>, b: i64) -> Seq<(i32, C)> {
    candles.filter(|c: (i32, C)| block_of(c.0 as int) == b as int)
}

/// The cache after storing the blocks `ids` one after the other, each with its candles.
pub open spec fn put_blocks<C>(s: Seq<(i64, Seq<(i32, C)>)>, cap: nat, ids: Seq<i64>, candles: Seq<(i32, C)>)
    -> Seq<(i64, Seq<(i32, C)>)>
    decreases ids.len(),
{
    if ids.len() == 0 {
        s
    } else {
        after_put(put_blocks(s, cap, ids.drop_last(), candles), cap, ids.last(), block_members(candles, ids.last()))
    }
}

/// Inserting into increasing ids keeps them increasing and adds exactly `b`.
pub(crate) proof fn lemma_insert_sorted(ids: Seq<i64>, b: i64)
    requires
        forall|x: int, y: int| 0 <= x < y < ids.len() ==> ids[x] < ids[y],
    ensures
        forall|x: int, y: int| 0 <= x < y < insert_sorted(ids, b).len() ==> insert_sorted(ids, b)[x] < insert_sorted(ids, b)[y],
        forall|c: i64| #[trigger] insert_sorted(ids, b).contains(c) <==> (ids.contains(c) || c == b),
    decreases ids.len(),
{
    let r = insert_sorted(ids, b);
    if ids.len() == 0 {
        assert forall|c: i64| r.contains(c) <==> (ids.contains(c) || c == b) by {
            if c == b {
                assert(r[0] == c);
            }
        }
    } else if b < ids[0] {
        assert forall|c: i64| r.contains(c) <==> (ids.contains(c) || c == b) by {
            if r.contains(c) {
                let k = choose|k: int| 0 <= k < r.len() && r[k] == c;
                if k > 0 {
                    assert(ids[k - 1] == c);
                }
            }
            if ids.contains(c) {
                let k = choose|k: int| 0 <= k < ids.len() && ids[k] == c;
                assert(r[k + 1] == c);
            }
            if c == b {
                assert(r[0] == c);
            }
        }
    } else if b == ids[0] {
    } else {
        let rest = ids.drop_first();
        lemma_insert_sorted(rest, b);
        let t = insert_sorted(rest, b);
        assert(r == seq![ids[0]] + t);
        assert forall|c: i64| r.contains(c) <==> (ids.contains(c) || c == b) by {
            if r.contains(c) {
                let k = choose|k: int| 0 <= k < r.len() && r[k] == c;
                if k > 0 {
                    assert(t[k - 1] == c);
                    assert(t.contains(c));
                    if rest.contains(c) {
                        let j = choose|j: int| 0 <= j < rest.len() && rest[j] == c;
                        assert(ids[j + 1] == c);
                    }
                } else {
                    assert(ids[0] == c);
                }
            }
            if ids.contains(c) {
                let k = choose|k: int| 0 <= k < ids.len() && ids[k] == c;
                if k == 0 {
                    assert(r[0] == c);
                } else {
                    assert(rest[k - 1] == c);
                    assert(rest.contains(c));
                    assert(t.contains(c));
                    let j = choose|j: int| 0 <= j < t.len() && t[j] == c;
                    assert(r[j + 1] == c);
                }
            }
            if c == b {
                assert(t.contains(c));
                let j = choose|j: int| 0 <= j < t.len() && t[j] == c;
                assert(r[j + 1] == c);
            }
        }
        assert forall|x: int, y: int| 0 <= x < y < r.len() implies r[x] < r[y] by {
            if x == 0 {
                assert(t.contains(r[y]));
                if rest.contains(r[y]) {
                    let j = choose|j: int| 0 <= j < rest.len() && rest[j] == r[y];
                    assert(ids[j + 1] == r[y]);
                }
            } else {
                assert(r[x] == t[x - 1] && r[y] == t[y - 1]);
            }
        }
    }
}

/// The blocks a store puts are the blocks its candles fall in, each once, in increasing
/// order.
pub proof fn lemma_sorted_blocks<C>(candles: Seq<(i32, C)>)
    ensures
        forall|x: int, y: int| 0 <= x < y < sorted_blocks(candles).len() ==> sorted_blocks(candles)[x] < sorted_blocks(candles)[y],
        forall|b: i64| sorted_blocks(candles).contains(b) <==> exists|k: int| 0 <= k < candles.len()
            && block_of(#[trigger] candles[k].0 as int) == b as int,
    decreases candles.len(),
{
    if candles.len() > 0 {
        let init = candles.drop_last();
        lemma_sorted_blocks(init);
        let last = block_of(candles.last().0 as int);
        assert(-3551 <= last <= 3550) by {
            assert(i32::MIN <= candles.last().0 <= i32::MAX);
        }
        lemma_insert_sorted(sorted_blocks(init), last as i64);
        assert forall|b: i64| sorted_blocks(candles).contains(b) <==> exists|k: int| 0 <= k < candles.len()
            && block_of(#[trigger] candles[k].0 as int) == b as int by {
            if sorted_blocks(init).contains(b) {
                let k = choose|k: int| 0 <= k < init.len() && block_of(#[trigger] init[k].0 as int) == b as int;
                assert(candles[k] == init[k]);
            }
            if exists|k: int| 0 <= k < candles.len() && block_of(#[trigger] candles[k].0 as int) == b as int {
                let k = choose|k: int| 0 <= k < candles.len() && block_of(#[trigger] candles[k].0 as int) == b as int;
                if k < candles.len() - 1 {
                    assert(init[k] == candles[k]);
                }
            }
        }
    }
}

/// Storing distinct blocks that fit in the cache keeps them all: afterwards they are the
/// most recent entries, the last stored first, each with exactly its candles.
proof fn lemma_put_blocks_front<C>(s: Seq<(i64, Seq<(i32, C)>)>, cap: nat, ids: Seq<i64>, candles: Seq<(i32, C)>)
    requires
        keys_of(s).no_duplicates(),
        s.len() <= cap,
        ids.no_duplicates(),
        ids.len() <= cap,
    ensures
        keys_of(put_blocks(s, cap, ids, candles)).no_duplicates(),
        put_blocks(s, cap, ids, candles).len() <= cap,
        put_blocks(s, cap, ids, candles).len() >= ids.len(),
        forall|j: int| 0 <= j < ids.len() ==> #[trigger] put_blocks(s, cap, ids, candles)[j] == (
            ids[ids.len() - 1 - j],
            block_members(candles, ids[ids.len() - 1 - j]),
        ),
    decreases ids.len(),
{
    if ids.len() > 0 {
        let init = ids.drop_last();
        let m = init.len() as int;
        assert(init.no_duplicates()) by {
            assert forall|x: int, y: int| 0 <= x < init.len() && 0 <= y < init.len() && x != y implies init[x] != init[y] by {
                assert(init[x] == ids[x] && init[y] == ids[y]);
            }
        }
        lemma_put_blocks_front(s, cap, init, candles);
        let r = put_blocks(s, cap, init, candles);
        let k = ids.last();
        let v = block_members(candles, k);
        crate::lru::lemma_put_keeps_keys_distinct(r, cap, k, v);
        let t = after_put(r, cap, k, v);
        assert(t == put_blocks(s, cap, ids, candles));
        assert forall|i: int| 0 <= i < m implies r[i].0 != k by {
            assert(r[i].0 == init[m - 1 - i]);
            assert(ids[m - 1 - i] == init[m - 1 - i]);
            assert(ids[m] == k);
        }
        if keys_of(r).contains(k) {
            let p = position_of(r, k);
            assert(0 <= p < r.len() && keys_of(r)[p] == k);
            assert(r[p].0 == k);
            assert(p >= m);
        }
        assert forall|j: int| 0 <= j < ids.len() implies #[trigger] t[j] == (ids[ids.len() - 1 - j], block_members(
            candles,
            ids[ids.len() - 1 - j],
        )) by {
            if j > 0 {
                assert(r[j - 1] == (init[m - 1 - (j - 1)], block_members(candles, init[m - 1 - (j - 1)])));
                assert(init[m - 1 - (j - 1)] == ids[ids.len() - 1 - j]);
            }
        }
    }
}

/// Reading right after a store gives back what was stored: when the blocks of the candles
/// fit in the cache, they are afterwards its most recent entries, in decreasing order, each
/// holding exactly the candles that fall in it, in their order.
pub proof fn lemma_store_reads_back<C>(s: Seq<(i64, Seq<(i32, C)>)>, cap: nat, candles: Seq<(i32, C)>)
    requires
        keys_of(s).no_duplicates(),
        s.len() <= cap,
        sorted_blocks(candles).len() <= cap,
    ensures
        ({
            let ids = sorted_blocks(candles);
            let after = put_blocks(s, cap, ids, candles);
            forall|j: int| 0 <= j < ids.len() ==> #[trigger] after[j] == (
                ids[ids.len() - 1 - j],
                block_members(candles, ids[ids.len() - 1 - j]),
            )
        }),
{
    let ids = sorted_blocks(candles);
    lemma_sorted_blocks(candles);
    assert(ids.no_duplicates()) by {
        assert forall|x: int, y: int| 0 <= x < ids.len() && 0 <= y < ids.len() && x != y implies ids[x] != ids[y] by {
            if x < y {
                assert(ids[x] < ids[y]);
            } else {
                assert(ids[y] < ids[x]);
            }
        }
    }
    lemma_put_blocks_front(s, cap, ids, candles);
}

/// Inserting `b` at the first place whose id is not smaller.
proof fn lemma_insert_at(ids: Seq<i64>, b: i64, p: int)
    requires
        0 <= p <= ids.len(),
        forall|k: int| 0 <= k < p ==> ids[k] < b,
        p < ids.len() ==> ids[p] >= b,
    ensures
        insert_sorted(ids, b) == if p < ids.len() && ids[p] == b {
            ids
        } else {
            ids.take(p) + seq![b] + ids.skip(p)
        },
    decreases p,
{
    if p == 0 {
        if ids.len() == 0 {
            assert(ids.take(0) + seq![b] + ids.skip(0) =~= seq![b]);
        } else if ids[0] != b {
            assert(ids.take(0) + seq![b] + ids.skip(0) =~= seq![b] + ids);
        }
    } else {
        let rest = ids.drop_first();
        lemma_insert_at(rest, b, p - 1);
        if p < ids.len() && ids[p] == b {
            assert(seq![ids[0]] + rest =~= ids);
        } else {
            assert(seq![ids[0]] + (rest.take(p - 1) + seq![b] + rest.skip(p - 1)) =~= ids.take(p) + seq![b] + ids.skip(p));
        }
    }
}

/// The block of a candle time, computed as Rust's `/` does.
fn block_id(t: i32) -> (r: i64)
    ensures
        r == block_of(t as int),
{
    (t as i64) / BLOCK_SECONDS
}

/// Puts `b` into the increasing ids, unless it is there.
pub(crate) fn insert_block(ids: &mut Vec<i64>, b: i64)
    ensures
        final(ids)@ == insert_sorted(old(ids)@, b),
{
    let mut p: usize = 0;
    while p < ids.len() && ids[p] < b
        invariant
            p <= ids@.len(),
            forall|k: int| 0 <= k < p ==> ids@[k] < b,
        decreases ids@.len() - p,
    {
        p = p + 1;
    }
    proof {
        lemma_insert_at(ids@, b, p as int);
    }
    if p < ids.len() && ids[p] == b {
        return;
    }
    ids.insert(p, b);
    proof {
        assert(ids@ =~= old(ids)@.take(p as int) + seq![b] + old(ids)@.skip(p as int));
    }
}

/// The candles of block `b`, in their order.
fn members_of<C: Copy>(candles: &Vec<(i32, C)>, b: i64) -> (r: Vec<(i32, C)>)
    ensures
        r@ == block_members(candles@, b),
{
    let mut out: Vec<(i32, C)> = Vec::new();
    let mut k: usize = 0;
    while k < candles.len()
        invariant
            k <= candles@.len(),
            out@ == block_members(candles@.take(k as int), b),
        decreases candles@.len() - k,
    {
        let c = candles[k];
        proof {
            reveal(Seq::filter);
            assert(candles@.take(k + 1).drop_last() =~= candles@.take(k as int));
            assert(candles@.take(k + 1).last() == c);
        }
        if block_id(c.0) == b {
            out.push(c);
        }
        k = k + 1;
    }
    proof {
        assert(candles@.take(k as int) =~= candles@);
    }
    out
}

/// Why candles could not be stored.
#[derive(Clone, Copy, Debug, PartialEq, Eq, Structural)]
pub enum CacheError {
    /// There was no candle to store.
    EmptyCandles,
}

/// Appends what the scan of one block picks, keeping the earliest and latest times.
fn pick_block<C: Copy>(
    candles: &mut Vec<(i32, C)>,
    first: &mut i64,
    last: &mut i64,
    block: &Vec<(i32, C)>,
    from: i64,
    to: i64,
    cut: bool,
    Ghost(from0): Ghost<int>,
)
    requires
        *old(first) == earliest(old(candles)@, to as int),
        *old(last) == latest(old(candles)@, from0),
    ensures
        final(candles)@ == old(candles)@ + block_picks(block@, from as int, to as int, cut),
        *final(first) == earliest(final(candles)@, to as int),
        *final(last) == latest(final(candles)@, from0),
{
    let ghost base = candles@;
    let ghost picks = block_picks(block@, from as int, to as int, cut);
    let mut j: usize = 0;
    assert(block@.skip(0) =~= block@);
    loop
        invariant_except_break
            j <= block@.len(),
            base + picks == candles@ + block_picks(block@.skip(j as int), from as int, to as int, cut),
            *first == earliest(candles@, to as int),
            *last == latest(candles@, from0),
        ensures
            candles@ == base + picks,
            *first == earliest(candles@, to as int),
            *last == latest(candles@, from0),
        decreases block@.len() - j,
    {
        if j >= block.len() {
            assert(block@.skip(j as int) =~= Seq::<(i32, C)>::empty());
            assert(candles@ =~= base + picks);
            break;
        }
        let ghost rest = block@.skip(j as int);
        assert(rest[0] == block@[j as int]);
        assert(rest.drop_first() =~= block@.skip(j + 1));
        let candle = block[j];
        let t = candle.0 as i64;
        let ghost before = candles@;
        if from <= t && t < to {
            candles.push(candle);
            assert(candles@.drop_last() =~= before);
            if (*first) > t {
                *first = t;
            }
            if (*last) < t {
                *last = t;
            }
        }
        if t >= to || cut {
            assert(candles@ =~= base + picks);
            break;
        }
        assert(base + picks =~= candles@ + block_picks(block@.skip(j + 1), from as int, to as int, cut));
        j = j + 1;
    }
}

/// The candles of one week cached per block, at most `capacity` weeks.
#[verifier::reject_recursive_types(C)]
pub struct CandleCache<C> {
    blocks: LruCache<i64, Vec<(i32, C)>>,
}

impl<C: Copy + Send + Sync + 'static> View for CandleCache<C> {
    type V = Seq<(i64, Seq<(i32, C)>)>;

    /// The cached blocks, most recently used first, each with its candles.
    closed spec fn view(&self) -> Seq<(i64, Seq<(i32, C)>)> {
        blocks_view(self.blocks@)
    }
}

impl<C: Copy + Send + Sync + 'static> CandleCache<C> {
    /// How many blocks the cache holds at most.
    pub closed spec fn capacity(&self) -> nat {
        self.blocks.capacity()
    }

    /// The cache's internal invariant.
    pub closed spec fn wf(&self) -> bool {
        self.blocks.wf()
    }

    /// A well-formed cache holds at most its capacity of blocks, each block once.
    pub proof fn lemma_bounded(&self)
        requires
            self.wf(),
        ensures
            self@.len() <= self.capacity(),
            keys_of(self@).no_duplicates(),
    {
        self.blocks.lemma_bounded();
        lemma_view_keys(self.blocks@);
    }

    /// An empty cache of at most `capacity` blocks.
    pub fn new(capacity: usize) -> (r: Self)
        ensures
            r.wf(),
            r@ == Seq::<(i64, Seq<(i32, C)>)>::empty(),
            r.capacity() == capacity,
    {
        let r = CandleCache { blocks: LruCache::new(capacity) };
        proof {
            assert(r@ =~= Seq::<(i64, Seq<(i32, C)>)>::empty());
        }
        r
    }

    /// Stores candles: grouped by the block their time falls in, each block with its
    /// candles in their order, the blocks stored in increasing order (so the latest block
    /// ends up most recent). An empty list is refused.
    pub fn store(&mut self, candles: Vec<(i32, C)>) -> (r: Result<(), CacheError>)
        requires
            old(self).wf(),
        ensures
            final(self).wf(),
            final(self).capacity() == old(self).capacity(),
            candles@.len() == 0 ==> r == Err::<(), CacheError>(CacheError::EmptyCandles) && final(self)@
                == old(self)@,
            candles@.len() > 0 ==> r is Ok && final(self)@ == put_blocks(old(self)@, old(self).capacity(),
                sorted_blocks(candles@), candles@),
    {
        if candles.len() == 0 {
            return Err(CacheError::EmptyCandles);
        }
        let mut ids: Vec<i64> = Vec::new();
        let mut k: usize = 0;
        while k < candles.len()
            invariant
                k <= candles@.len(),
                ids@ == sorted_blocks(candles@.take(k as int)),
            decreases candles@.len() - k,
        {
            let b = block_id(candles[k].0);
            proof {
                assert(candles@.take(k + 1).drop_last() =~= candles@.take(k as int));
            }
            insert_block(&mut ids, b);
            k = k + 1;
        }
        proof {
            assert(candles@.take(k as int) =~= candles@);
        }
        let ghost start = self@;
        let mut n: usize = 0;
        while n < ids.len()
            invariant
                self.wf(),
                self.capacity() == old(self).capacity(),
                n <= ids@.len(),
                ids@ == sorted_blocks(candles@),
                start == old(self)@,
                self@ == put_blocks(start, self.capacity(), ids@.take(n as int), candles@),
            decreases ids@.len() - n,
        {
            let b = ids[n];
            let block = members_of(&candles, b);
            let ghost pre_blocks = self.blocks@;
            self.blocks.put(b, block);
            proof {
                lemma_view_after_put(pre_blocks, self.capacity(), b, block);
                assert(ids@.take(n + 1).drop_last() =~= ids@.take(n as int));
            }
            n = n + 1;
        }
        proof {
            assert(ids@.take(n as int) =~= ids@);
        }
        Ok(())
    }

    /// Reads the cached candles of `[from, to)`: block by block from `first_block(from)` to
    /// `last_block(to)`, each cached block read becoming the most recent; the scan stops at
    /// the first block that is not cached.
    pub fn scan(&mut self, from: i64, to: i64, limit: usize) -> (r: Scan<C>)
        requires
            old(self).wf(),
            scan_fits(from, to),
        ensures
            final(self).wf(),
            final(self).capacity() == old(self).capacity(),
            ({
                let found = scan_blocks(old(self)@, first_block(from as int), last_block(to as int), from as int,
                    to as int, limit);
                &&& r.candles@ == found.0
                &&& r.complete == found.1 is None
                &&& r.from == match found.1 {
                    Some(m) => (m - 1) * BLOCK_SECONDS,
                    None => from as int,
                }
                &&& final(self)@ == found.2
            }),
            r.to == to,
            r.first == earliest(r.candles@, to as int),
            r.last == latest(r.candles@, from as int),
    {
        let b = BLOCK_SECONDS;
        let i_from = from / b - if from % b != 0 { 1 } else { 0 };
        let i_to = to / b + if to % b != 0 { 1 } else { 0 };
        let ghost found = scan_blocks(self@, i_from as int, i_to as int, from as int, to as int, limit);
        let mut candles: Vec<(i32, C)> = Vec::new();
        let mut first = to;
        let mut last = from;
        if i_from > i_to {
            return Scan { candles, first, last, from, to, complete: true };
        }
        let mut i = i_from;
        loop
            invariant_except_break
                self.wf(),
                self.capacity() == old(self).capacity(),
                i_from <= i <= i_to + 1,
                b == BLOCK_SECONDS,
                i_from == first_block(from as int),
                i_to == last_block(to as int),
                (i_from - 1) * BLOCK_SECONDS >= i64::MIN,
                i_to * BLOCK_SECONDS <= i64::MAX,
                found == scan_blocks(old(self)@, i_from as int, i_to as int, from as int, to as int, limit),
                found.0 == candles@ + scan_blocks(self@, i as int, i_to as int, from as int, to as int, limit).0,
                found.1 == scan_blocks(self@, i as int, i_to as int, from as int, to as int, limit).1,
                found.2 == scan_blocks(self@, i as int, i_to as int, from as int, to as int, limit).2,
                first == earliest(candles@, to as int),
                last == latest(candles@, from as int),
            ensures
                self.wf(),
                self.capacity() == old(self).capacity(),
                first == earliest(candles@, to as int),
                last == latest(candles@, from as int),
                found == scan_blocks(old(self)@, i_from as int, i_to as int, from as int, to as int, limit),
                found.0 == candles@,
                found.2 == self@,
                match found.1 {
                    Some(m) => m == i && i_from <= i <= i_to,
                    None => i == i_to + 1,
                },
            decreases i_to + 1 - i,
        {
            if i > i_to {
                assert(candles@ + Seq::<(i32, C)>::empty() =~= candles@);
                break;
            }
            let ghost s = self@;
            let ghost before = candles@;
            proof {
                lemma_view_keys(self.blocks@);
            }
            let cut = limit > 0 && (#[verifier::truncate] ((i * b) as usize)) > limit;
            let hit = match self.blocks.peek(&i) {
                Some(block) => {
                    proof {
                        let p = position_of(self.blocks@, i);
                        assert(block_candles(s, i) == self.blocks@[p].1@);
                    }
                    pick_block(&mut candles, &mut first, &mut last, block, from, to, cut, Ghost(from as int));
                    assert(candles@ == before + block_picks(block_candles(s, i), from as int, to as int, cut));
                    true
                },
                None => false,
            };
            if !hit {
                break;
            }
            let ghost pre_blocks = self.blocks@;
            self.blocks.touch(&i);
            proof {
                lemma_view_after_get(pre_blocks, i);
                assert(self@ == after_get(s, i));
                assert(cut == cut_short(i as int, limit));
                let rest = scan_blocks(after_get(s, i), i + 1, i_to as int, from as int, to as int, limit);
                assert(keys_of(s).contains(i));
                assert(scan_blocks(s, i as int, i_to as int, from as int, to as int, limit).0
                    == block_picks(block_candles(s, i), from as int, to as int, cut) + rest.0);
                assert(found.0 =~= candles@ + rest.0);
            }
            i = i + 1;
        }
        let (new_from, complete) = if i <= i_to {
            ((i - 1) * b, false)
        } else {
            (from, true)
        };
        Scan { candles, first, last, from: new_from, to, complete }
    }
}

} // verus!
