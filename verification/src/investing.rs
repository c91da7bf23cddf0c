//! The investing service: paging of symbol, store and product listings, and the time
//! windows of relative-rotation and heatmap queries.
use crate::text::{parse_i32, parse_integer, text_is};
use vstd::prelude::*;

verus! {

/// A symbol of a broker.
pub struct SymbolInDetail {
    pub broker: String,
    pub symbol: String,
}

/// Where in a query an error lies.
pub struct SourceLocationDTO {
    pub line: usize,
    pub column: usize,
}

/// An error of a query, with where it lies and the path of the field it concerns.
pub struct GraphQLErrorDTO {
    pub message: String,
    pub locations: Option<Vec<SourceLocationDTO>>,
    pub path: Option<Vec<String>>,
}

/// The paging query of the listings.
#[derive(Clone, Debug, Default)]
pub struct QueryPagingInput {
    pub after: Option<i32>,
    pub limit: Option<u64>,
    pub detail: Option<bool>,
}

/// A listing page request with its defaults filled in.
#[derive(Clone, Copy, Debug, PartialEq, Eq, Structural)]
pub struct Page {
    pub after: i32,
    pub limit: u64,
    pub detail: bool,
}

/// Why a listing page request is refused: it asked for too many rows, as many as the field
/// holds.
#[derive(Clone, Copy, Debug, PartialEq, Eq, Structural)]
pub struct LimitTooLarge(pub u64);

/// The page a query asks for: after row `0`, 10 rows and no details unless it says
/// otherwise.
pub open spec fn requested_page(q: QueryPagingInput) -> Page {
    Page {
        after: match q.after { Some(a) => a, None => 0 },
        limit: match q.limit { Some(l) => l, None => 10 },
        detail: match q.detail { Some(d) => d, None => false },
    }
}

impl QueryPagingInput {
    /// The page asked for by a listing of whole records (products): more than 100 rows are
    /// refused.
    pub fn page(&self) -> (r: Result<Page, LimitTooLarge>)
        ensures
            ({
                let p = requested_page(*self);
                &&& p.limit > 100 ==> r == Err::<Page, LimitTooLarge>(LimitTooLarge(p.limit))
                &&& p.limit <= 100 ==> r == Ok::<Page, LimitTooLarge>(p)
            }),
    {
        let page = Page {
            after: match self.after {
                Some(a) => a,
                None => 0,
            },
            limit: match self.limit {
                Some(l) => l,
                None => 10,
            },
            detail: match self.detail {
                Some(d) => d,
                None => false,
            },
        };
        if page.limit > 100 {
            Err(LimitTooLarge(page.limit))
        } else {
            Ok(page)
        }
    }

    /// The page asked for by a listing that may carry details (symbols, stores): more than
    /// 100 rows are refused, and with details more than 10.
    pub fn detailed_page(&self) -> (r: Result<Page, LimitTooLarge>)
        ensures
            ({
                let p = requested_page(*self);
                &&& (p.limit > 10 && p.detail) || p.limit > 100 ==> r == Err::<Page, LimitTooLarge>(
                    LimitTooLarge(p.limit))
                &&& !((p.limit > 10 && p.detail) || p.limit > 100) ==> r == Ok::<Page, LimitTooLarge>(p)
            }),
    {
        match self.page() {
            Ok(p) => {
                if p.limit > 10 && p.detail {
                    Err(LimitTooLarge(p.limit))
                } else {
                    Ok(p)
                }
            },
            Err(e) => Err(e),
        }
    }
}

/// Where the next listing page starts: a full page that has rows points after the id of
/// its last row; otherwise there is no next page.
pub open spec fn next_after_of(ids: Seq<Option<i32>>, limit: u64) -> Option<i32> {
    if ids.len() == limit && ids.len() > 0 {
        ids.last()
    } else {
        None
    }
}

/// Where the next listing page starts, given the ids of a page's rows.
pub fn next_after(ids: &Vec<Option<i32>>, limit: u64) -> (r: Option<i32>)
    ensures
        r == next_after_of(ids@, limit),
{
    let n = ids.len();
    if n as u64 == limit && n > 0 {
        ids[n - 1]
    } else {
        None
    }
}

/// The query of a relative-rotation graph of a symbol against a reference symbol.
pub struct RrgRequest {
    pub resolution: String,
    pub reference: String,
    pub period: usize,
    pub now: i64,
    pub look_back: i64,
}

/// Why a relative-rotation query is refused.
#[derive(Clone, Copy, Debug, PartialEq, Eq, Structural)]
pub enum RrgError {
    /// Only `1H`, `1D` and `1W` candles are supported.
    UnsupportedResolution,
}

/// The seconds of one candle of a supported resolution.
pub open spec fn candle_seconds(resolution: Seq<char>) -> Option<int> {
    if resolution == "1H"@ {
        Some(3600)
    } else if resolution == "1D"@ {
        Some(86400)
    } else if resolution == "1W"@ {
        Some(604800)
    } else {
        None
    }
}

/// The first second of the candles a query reads: `look_back` candles and four periods
/// more, before `now`.
pub open spec fn rrg_from(step: int, request: RrgRequest) -> int {
    request.now - step * (request.look_back + request.period * 4)
}

/// Whether the window of a query is computed without leaving the range of `i64`.
pub open spec fn rrg_window_fits(request: RrgRequest) -> bool {
    match candle_seconds(request.resolution@) {
        Some(step) => {
            let candles = request.look_back + request.period * 4;
            &&& request.period * 4 <= usize::MAX
            &&& request.period * 4 <= i64::MAX
            &&& i64::MIN <= candles <= i64::MAX
            &&& i64::MIN <= step * candles <= i64::MAX
            &&& i64::MIN <= rrg_from(step, request) <= i64::MAX
        },
        None => true,
    }
}

impl RrgRequest {
    /// The window `[from, now]` of candles the query reads, or why it is refused.
    pub fn window(&self) -> (r: Result<(i64, i64), RrgError>)
        requires
            rrg_window_fits(*self),
        ensures
            match candle_seconds(self.resolution@) {
                Some(step) => r == Ok::<(i64, i64), RrgError>((rrg_from(step, *self) as i64, self.now)),
                None => r == Err::<(i64, i64), RrgError>(RrgError::UnsupportedResolution),
            },
    {
        proof {
            reveal_strlit("1H");
            reveal_strlit("1D");
            reveal_strlit("1W");
        }
        let step: i64 = if text_is(self.resolution.as_str(), "1H") {
            3600
        } else if text_is(self.resolution.as_str(), "1D") {
            86400
        } else if text_is(self.resolution.as_str(), "1W") {
            604800
        } else {
            return Err(RrgError::UnsupportedResolution);
        };
        let extra = (self.period * 4) as i64;
        let candles = self.look_back + extra;
        let span = step * candles;
        Ok((self.now - span, self.now))
    }
}

/// The query of a volume heatmap of a symbol.
pub struct HeatmapRequest {
    pub resolution: String,
    pub now: i64,
    pub look_back: i64,
    pub overlap: usize,
    pub number_of_levels: usize,
    pub interval_in_hour: i32,
}

/// The window and candles of a heatmap query.
#[derive(Clone, Copy, Debug, PartialEq, Eq, Structural)]
pub enum HeatmapCandles {
    /// One-minute candles, for an hourly heatmap.
    Minute,
    /// Hourly candles, for a daily heatmap.
    Hour,
    /// Daily candles, for a weekly heatmap.
    Day,
}

/// Why a heatmap query is refused.
#[derive(Clone, Copy, Debug, PartialEq, Eq, Structural)]
pub enum HeatmapError {
    /// Only `1H`, `1D` and `1W` heatmaps are supported.
    UnsupportedResolution,
}

/// The candles a heatmap of `resolution` is drawn from, and the seconds one look-back step
/// spans.
pub open spec fn heatmap_plan(resolution: Seq<char>) -> Option<(HeatmapCandles, int)> {
    if resolution == "1H"@ {
        Some((HeatmapCandles::Minute, 3600))
    } else if resolution == "1D"@ {
        Some((HeatmapCandles::Hour, 86400))
    } else if resolution == "1W"@ {
        Some((HeatmapCandles::Day, 604800))
    } else {
        None
    }
}

impl HeatmapCandles {
    /// The resolution name of these candles at a broker.
    pub fn name(&self) -> (r: &'static str)
        ensures
            r@ == match *self {
                HeatmapCandles::Minute => "1m"@,
                HeatmapCandles::Hour => "1H"@,
                HeatmapCandles::Day => "1D"@,
            },
    {
        match self {
            HeatmapCandles::Minute => "1m",
            HeatmapCandles::Hour => "1H",
            HeatmapCandles::Day => "1D",
        }
    }
}

impl HeatmapRequest {
    /// The window `[now - look_back steps, now]` of the heatmap and the candles it is drawn
    /// from, or why it is refused.
    pub fn plan(&self) -> (r: Result<(i64, i64, HeatmapCandles), HeatmapError>)
        requires
            heatmap_plan(self.resolution@) matches Some(p) ==> i64::MIN <= p.1 * self.look_back <= i64::MAX
                && i64::MIN <= self.now - p.1 * self.look_back <= i64::MAX,
        ensures
            match heatmap_plan(self.resolution@) {
                Some(p) => r == Ok::<(i64, i64, HeatmapCandles), HeatmapError>(
                    ((self.now - p.1 * self.look_back) as i64, self.now, p.0),
                ),
                None => r == Err::<(i64, i64, HeatmapCandles), HeatmapError>(HeatmapError::UnsupportedResolution),
            },
    {
        proof {
            reveal_strlit("1H");
            reveal_strlit("1D");
            reveal_strlit("1W");
        }
        let (candles, step): (HeatmapCandles, i64) = if text_is(self.resolution.as_str(), "1H") {
            (HeatmapCandles::Minute, 3600)
        } else if text_is(self.resolution.as_str(), "1D") {
            (HeatmapCandles::Hour, 86400)
        } else if text_is(self.resolution.as_str(), "1W") {
            (HeatmapCandles::Day, 604800)
        } else {
            return Err(HeatmapError::UnsupportedResolution);
        };
        let span = step * self.look_back;
        Ok((self.now - span, self.now, candles))
    }
}

/// The heatmap laid out by level: `rows` rows, one column per time column, the cell of row
/// `i` and column `j` holding level `i` of column `j` where that column has it, `zero`
/// otherwise.
pub open spec fn by_level<T>(columns: Seq<Seq<T>>, rows: nat, zero: T) -> Seq<Seq<T>> {
    Seq::new(rows, |i: int| Seq::new(columns.len(), |j: int| if i < columns[j].len() { columns[j][i] } else { zero }))
}

/// Lays out per-time columns of levels as rows of levels.
pub fn transpose_levels<T: Copy>(columns: &Vec<Vec<T>>, rows: usize, zero: T) -> (r: Vec<Vec<T>>)
    ensures
        r@.len() == rows,
        forall|i: int| 0 <= i < rows ==> #[trigger] r@[i]@ == by_level(columns@.map_values(|c: Vec<T>| c@), rows as nat, zero)[i],
{
    let ghost cols = columns@.map_values(|c: Vec<T>| c@);
    let mut out: Vec<Vec<T>> = Vec::new();
    let mut i: usize = 0;
    while i < rows
        invariant
            i <= rows,
            out@.len() == i,
            cols == columns@.map_values(|c: Vec<T>| c@),
            forall|k: int| 0 <= k < i ==> #[trigger] out@[k]@ == by_level(cols, rows as nat, zero)[k],
        decreases rows - i,
    {
        let mut row: Vec<T> = Vec::new();
        let mut j: usize = 0;
        while j < columns.len()
            invariant
                i < rows,
                j <= columns@.len(),
                row@.len() == j,
                cols == columns@.map_values(|c: Vec<T>| c@),
                forall|m: int| 0 <= m < j ==> #[trigger] row@[m] == by_level(cols, rows as nat, zero)[i as int][m],
            decreases columns@.len() - j,
        {
            let column = &columns[j];
            let cell = if i < column.len() { column[i] } else { zero };
            row.push(cell);
            j = j + 1;
        }
        proof {
            assert(row@ =~= by_level(cols, rows as nat, zero)[i as int]);
        }
        out.push(row);
        i = i + 1;
    }
    out
}

/// The fields a market-list query asks for, among those that need prices.
#[derive(Clone, Copy, Debug, Default)]
pub struct PriceFields {
    pub trend_data: bool,
    pub trend: bool,
    pub diff_buy: bool,
    pub diff_sell: bool,
    pub yesterday_buy: bool,
    pub yesterday_sell: bool,
    pub buy: bool,
    pub sell: bool,
}

/// Which prices a market-list query reads.
#[derive(Clone, Copy, Debug, PartialEq, Eq, Structural)]
pub enum PriceQuery {
    /// The daily history over the look-back, keeping the whole history where asked.
    History { keep: bool },
    /// Only the current prices.
    Current,
    /// No price at all.
    Nothing,
}

/// The prices a market-list query reads: the history when a trend or a change since
/// yesterday is asked for, otherwise the current prices when a buy or sell price is, and
/// nothing otherwise.
pub open spec fn price_query_of(f: PriceFields) -> PriceQuery {
    let history = f.trend_data || f.trend;
    let diff = f.diff_buy || f.diff_sell || f.yesterday_buy || f.yesterday_sell;
    let current = f.buy || f.sell;
    if history || diff {
        PriceQuery::History { keep: history }
    } else if current {
        PriceQuery::Current
    } else {
        PriceQuery::Nothing
    }
}

impl PriceFields {
    /// The prices the query reads.
    pub fn price_query(&self) -> (r: PriceQuery)
        ensures
            r == price_query_of(*self),
    {
        let history = self.trend_data || self.trend;
        let diff = self.diff_buy || self.diff_sell || self.yesterday_buy || self.yesterday_sell;
        if history || diff {
            PriceQuery::History { keep: history }
        } else if self.buy || self.sell {
            PriceQuery::Current
        } else {
            PriceQuery::Nothing
        }
    }
}

/// The current price of a daily history (its last entry) and yesterday's (the one before).
pub fn current_and_yesterday<P: Copy>(history: &Vec<P>) -> (r: (Option<P>, Option<P>))
    ensures
        r.0 == if history@.len() > 0 { Some(history@.last()) } else { None::<P> },
        r.1 == if history@.len() >= 2 { Some(history@[history@.len() - 2]) } else { None::<P> },
{
    let n = history.len();
    if n == 0 {
        (None, None)
    } else if n == 1 {
        (Some(history[0]), None)
    } else {
        (Some(history[n - 1]), Some(history[n - 2]))
    }
}

/// The window `[now - look_back days, now]` of a market-list history.
pub fn history_window(now: i64, look_back: i64) -> (r: (i64, i64))
    requires
        i64::MIN <= look_back * 86400 <= i64::MAX,
        i64::MIN <= now - look_back * 86400 <= i64::MAX,
    ensures
        r == ((now - look_back * 86400) as i64, now),
{
    (now - look_back * 24 * 60 * 60, now)
}

/// Whether `c` has the Unicode `White_Space` property (what `char::is_whitespace` and
/// `str::trim` go by): tab, line feed, vertical tab, form feed, carriage return, space,
/// next line, no-break space, ogham space mark, the spaces from en quad to hair space,
/// line and paragraph separator, narrow no-break space, medium mathematical space and
/// ideographic space.
pub open spec fn white_space(c: char) -> bool {
    ||| '\u{9}' <= c <= '\u{d}'
    ||| c == ' '
    ||| c == '\u{85}'
    ||| c == '\u{a0}'
    ||| c == '\u{1680}'
    ||| '\u{2000}' <= c <= '\u{200a}'
    ||| c == '\u{2028}'
    ||| c == '\u{2029}'
    ||| c == '\u{202f}'
    ||| c == '\u{205f}'
    ||| c == '\u{3000}'
}

/// Whether `c` has the Unicode `White_Space` property.
pub(crate) fn is_white_space(c: char) -> (r: bool)
    ensures
        r == white_space(c),
{
    ('\u{9}' <= c && c <= '\u{d}') || c == ' ' || c == '\u{85}' || c == '\u{a0}' || c == '\u{1680}'
        || ('\u{2000}' <= c && c <= '\u{200a}') || c == '\u{2028}' || c == '\u{2029}' || c == '\u{202f}'
        || c == '\u{205f}' || c == '\u{3000}'
}

/// `s` without its leading white space.
pub open spec fn trim_start(s: Seq<char>) -> Seq<char>
    decreases s.len(),
{
    if s.len() > 0 && white_space(s[0]) {
        trim_start(s.drop_first())
    } else {
        s
    }
}

/// `s` without its trailing white space.
pub open spec fn trim_end(s: Seq<char>) -> Seq<char>
    decreases s.len(),
{
    if s.len() > 0 && white_space(s.last()) {
        trim_end(s.drop_last())
    } else {
        s
    }
}

/// `s` without its leading and trailing white space, as `str::trim` gives it.
pub(crate) fn trim_text(s: &str) -> (r: &str)
    ensures
        r@ == trim_end(trim_start(s@)),
        r@.len() > 0 ==> !white_space(r@[0]) && !white_space(r@.last()),
{
    let n = s.unicode_len();
    let mut a: usize = 0;
    proof {
        assert(s@.subrange(0, n as int) =~= s@);
    }
    while a < n && is_white_space(s.get_char(a))
        invariant
            n == s@.len(),
            a <= n,
            trim_start(s@) == trim_start(s@.subrange(a as int, n as int)),
        decreases n - a,
    {
        proof {
            let sub = s@.subrange(a as int, n as int);
            assert(sub[0] == s@[a as int]);
            assert(sub.drop_first() =~= s@.subrange(a + 1, n as int));
        }
        a = a + 1;
    }
    let ghost front = s@.subrange(a as int, n as int);
    proof {
        if a < n {
            assert(front[0] == s@[a as int]);
        }
        assert(trim_start(s@) == front);
    }
    let mut b: usize = n;
    while b > a && is_white_space(s.get_char(b - 1))
        invariant
            n == s@.len(),
            a <= b <= n,
            front == s@.subrange(a as int, n as int),
            a < n ==> !white_space(s@[a as int]),
            trim_end(front) == trim_end(s@.subrange(a as int, b as int)),
        decreases b - a,
    {
        proof {
            let sub = s@.subrange(a as int, b as int);
            assert(sub.last() == s@[b - 1]);
            assert(sub.drop_last() =~= s@.subrange(a as int, b - 1));
        }
        b = b - 1;
    }
    let r = s.substring_char(a, b);
    proof {
        if b > a {
            assert(r@.last() == s@[b - 1]);
            assert(r@[0] == s@[a as int]);
        }
        assert(trim_end(front) == r@);
    }
    r
}

/// The pieces of `s` between commas, in order (one piece when there is no comma).
pub open spec fn comma_pieces(s: Seq<char>) -> Seq<Seq<char>>
    decreases s.len(),
{
    if s.len() == 0 {
        seq![seq![]]
    } else {
        let init = comma_pieces(s.drop_last());
        if s.last() == ',' {
            init.push(seq![])
        } else {
            init.update(init.len() - 1, init.last().push(s.last()))
        }
    }
}

/// The ids that the pieces read as, in order, once trimmed; pieces that are not an `i32`
/// are skipped.
pub open spec fn ids_of(pieces: Seq<Seq<char>>) -> Seq<i32>
    decreases pieces.len(),
{
    if pieces.len() == 0 {
        seq![]
    } else {
        match parse_integer(trim_end(trim_start(pieces.last())), true, i32::MIN as int, i32::MAX as int) {
            Some(v) => ids_of(pieces.drop_last()).push(v as i32),
            None => ids_of(pieces.drop_last()),
        }
    }
}

/// The product ids of a comma-separated list: each piece trimmed and read as an `i32`;
/// pieces that are not are skipped.
pub fn product_ids(text: &str) -> (r: Vec<i32>)
    ensures
        r@ == ids_of(comma_pieces(text@)),
{
    let n = text.unicode_len();
    let mut done: Vec<i32> = Vec::new();
    let mut start: usize = 0;
    let mut i: usize = 0;
    proof {
        assert(text@.take(0) =~= Seq::<char>::empty());
        assert(text@.subrange(0, 0) =~= Seq::<char>::empty());
    }
    while i < n
        invariant
            n == text@.len(),
            start <= i <= n,
            comma_pieces(text@.take(i as int)).len() >= 1,
            text@.subrange(start as int, i as int) == comma_pieces(text@.take(i as int)).last(),
            done@ == ids_of(comma_pieces(text@.take(i as int)).drop_last()),
        decreases n - i,
    {
        let c = text.get_char(i);
        let ghost before = comma_pieces(text@.take(i as int));
        proof {
            assert(text@.take(i + 1).drop_last() =~= text@.take(i as int));
            assert(text@.take(i + 1).last() == c);
        }
        if c == ',' {
            let piece = text.substring_char(start, i);
            let t = trim_text(piece);
            match parse_i32(t) {
                Some(v) => done.push(v),
                None => {},
            }
            proof {
                let after = before.push(seq![]);
                assert(after.drop_last() =~= before);
                assert(before.drop_last().push(before.last()) =~= before);
                assert(text@.subrange(i + 1, i + 1) =~= Seq::<char>::empty());
            }
            start = i + 1;
        } else {
            proof {
                let after = before.update(before.len() - 1, before.last().push(c));
                assert(after.drop_last() =~= before.drop_last());
                assert(text@.subrange(start as int, i + 1) =~= before.last().push(c));
            }
        }
        i = i + 1;
    }
    let piece = text.substring_char(start, n);
    let t = trim_text(piece);
    match parse_i32(t) {
        Some(v) => done.push(v),
        None => {},
    }
    proof {
        assert(text@.take(n as int) =~= text@);
        let all = comma_pieces(text@);
        assert(all.drop_last().push(all.last()) =~= all);
    }
    done
}

} // verus!
