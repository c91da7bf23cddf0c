//! Warehouse bookkeeping that does not touch the database: which database a tenant lives
//! in, paging of list endpoints, and how planned items add up to stock entries.
use crate::candle_cache::{insert_block, insert_sorted, lemma_insert_sorted};
use crate::status::{ItemStatus, LotStatus};
use crate::text::text_is;
use vstd::prelude::*;

verus! {

/// The database a tenant's rows live in, among `shards` databases.
pub fn shard_index(tenant_id: i32, shards: usize) -> (r: usize)
    requires
        shards > 0,
    ensures
        r == (tenant_id as usize) % shards,
        r < shards,
{
    let t = tenant_id as usize;
    t % shards
}

/// A shelf of the warehouse.
#[derive(Clone, Debug, Default)]
pub struct Shelf {
    pub id: Option<i32>,
    pub description: Option<String>,
    pub name: Option<String>,
}

/// The paging query of list endpoints.
#[derive(Clone, Debug, Default)]
pub struct QueryPagingInput {
    pub include_details: Option<bool>,
    pub after: Option<i64>,
    pub limit: Option<u64>,
}

/// A page request with its defaults filled in.
#[derive(Clone, Copy, Debug, PartialEq, Eq, Structural)]
pub struct Paging {
    pub include_details: bool,
    pub after: i64,
    pub limit: u64,
}

/// Why a page request is refused.
#[derive(Clone, Copy, Debug, PartialEq, Eq, Structural)]
pub enum PagingError {
    /// More than 100 rows per page were asked for.
    LimitTooLarge(u64),
    /// A detailed listing asked for more than 10 rows per page.
    DetailedLimitTooLarge(u64),
}

/// The rows per page when the query does not say.
pub const DEFAULT_LIMIT: u64 = 10;

/// The most rows a page may hold.
pub const MAX_LIMIT: u64 = 100;

/// The most rows a detailed page may hold.
pub const MAX_DETAILED_LIMIT: u64 = 10;

impl QueryPagingInput {
    /// The page asked for: details off, after row `0` and 10 rows unless the query says
    /// otherwise; more than 100 rows are refused.
    pub fn paging(&self) -> (r: Result<Paging, PagingError>)
        ensures
            ({
                let limit = match self.limit { Some(l) => l, None => 10 };
                &&& limit > 100 ==> r == Err::<Paging, PagingError>(PagingError::LimitTooLarge(limit))
                &&& limit <= 100 ==> r == Ok::<Paging, PagingError>(Paging {
                    include_details: match self.include_details { Some(b) => b, None => false },
                    after: match self.after { Some(a) => a, None => 0 },
                    limit,
                })
            }),
    {
        let limit = match self.limit {
            Some(l) => l,
            None => DEFAULT_LIMIT,
        };
        if limit > MAX_LIMIT {
            return Err(PagingError::LimitTooLarge(limit));
        }
        Ok(Paging {
            include_details: match self.include_details {
                Some(b) => b,
                None => false,
            },
            after: match self.after {
                Some(a) => a,
                None => 0,
            },
            limit,
        })
    }

    /// The page asked for by a listing that may include details: as `paging`, and a
    /// detailed page of more than 10 rows is refused too.
    pub fn detailed_paging(&self) -> (r: Result<Paging, PagingError>)
        ensures
            ({
                let limit = match self.limit { Some(l) => l, None => 10 };
                let detail = match self.include_details { Some(b) => b, None => false };
                &&& limit > 100 ==> r == Err::<Paging, PagingError>(PagingError::LimitTooLarge(limit))
                &&& limit <= 100 && detail && limit > 10 ==> r == Err::<Paging, PagingError>(
                    PagingError::DetailedLimitTooLarge(limit))
                &&& limit <= 100 && !(detail && limit > 10) ==> r == Ok::<Paging, PagingError>(Paging {
                    include_details: detail,
                    after: match self.after { Some(a) => a, None => 0 },
                    limit,
                })
            }),
    {
        match self.paging() {
            Ok(p) => {
                if p.include_details && p.limit > MAX_DETAILED_LIMIT {
                    Err(PagingError::DetailedLimitTooLarge(p.limit))
                } else {
                    Ok(p)
                }
            },
            Err(e) => Err(e),
        }
    }
}

/// Where the next page starts: a full page (as many rows as the limit) points after the
/// id of its last row; a shorter page is the last one.
pub open spec fn next_after_of(ids: Seq<Option<i64>>, limit: u64) -> Option<i64> {
    if ids.len() == limit && ids.len() > 0 {
        ids.last()
    } else {
        None
    }
}

/// Where the next page starts, given the ids of a page's rows. An empty page under a limit
/// of zero has no last row to point after.
pub fn next_after(ids: &Vec<Option<i64>>, limit: u64) -> (r: Option<i64>)
    requires
        !(ids@.len() == 0 && limit == 0),
    ensures
        r == next_after_of(ids@, limit),
{
    let n = ids.len();
    if n as u64 == limit {
        ids[n - 1]
    } else {
        None
    }
}

/// A page of shelves.
#[derive(Clone, Debug)]
pub struct ListShelvesResponse {
    pub data: Vec<Shelf>,
    pub next_after: Option<i64>,
}

/// The ids of shelves, widened to page cursors.
pub open spec fn shelf_ids(data: Seq<Shelf>) -> Seq<Option<i64>> {
    data.map_values(|s: Shelf| match s.id { Some(i) => Some(i as i64), None => None })
}

impl ListShelvesResponse {
    /// A page of shelves fetched under `limit`, with the cursor of the next page.
    pub fn new(data: Vec<Shelf>, limit: u64) -> (r: ListShelvesResponse)
        requires
            !(data@.len() == 0 && limit == 0),
        ensures
            r.data@ == data@,
            r.next_after == next_after_of(shelf_ids(data@), limit),
    {
        let mut ids: Vec<Option<i64>> = Vec::new();
        let mut i: usize = 0;
        while i < data.len()
            invariant
                0 <= i <= data@.len(),
                ids@ == shelf_ids(data@).subrange(0, i as int),
            decreases data@.len() - i,
        {
            let id = match data[i].id {
                Some(v) => Some(v as i64),
                None => None,
            };
            ids.push(id);
            proof {
                assert(ids@ =~= shelf_ids(data@).subrange(0, i + 1));
            }
            i = i + 1;
        }
        proof {
            assert(ids@ =~= shelf_ids(data@));
        }
        let next_after = next_after(&ids, limit);
        ListShelvesResponse { data, next_after }
    }
}

/// How many of `items` fall under `key`.
pub open spec fn count_of(items: Seq<(i32, i32)>, key: (i32, i32)) -> nat
    decreases items.len(),
{
    if items.len() == 0 {
        0
    } else {
        count_of(items.drop_last(), key) + if items.last() == key { 1nat } else { 0nat }
    }
}

/// The (lot, stock) pairs of planned items whose lot and stock both exist.
pub open spec fn valid_pairs(items: Seq<(i32, i32)>, valid_lots: Seq<i32>, valid_stocks: Seq<i32>) -> Seq<(i32, i32)>
    decreases items.len(),
{
    if items.len() == 0 {
        Seq::empty()
    } else {
        valid_pairs(items.drop_last(), valid_lots, valid_stocks) + if valid_lots.contains(items.last().0)
            && valid_stocks.contains(items.last().1) {
            seq![items.last()]
        } else {
            Seq::empty()
        }
    }
}

/// The keys of a list of counted entries.
pub open spec fn entry_keys(entries: Seq<((i32, i32), u64)>) -> Seq<(i32, i32)> {
    entries.map_values(|e: ((i32, i32), u64)| e.0)
}

/// Whether `entries` counts `pairs` exactly: each pair once, with its number of
/// occurrences, and nothing else.
pub open spec fn counts_exactly(entries: Seq<((i32, i32), u64)>, pairs: Seq<(i32, i32)>) -> bool {
    &&& entry_keys(entries).no_duplicates()
    &&& forall|i: int| 0 <= i < entries.len() ==> #[trigger] entries[i].1 == count_of(pairs, entries[i].0)
        && entries[i].1 > 0
    &&& forall|k: (i32, i32)| count_of(pairs, k) > 0 ==> entry_keys(entries).contains(k)
}

proof fn lemma_count_push(items: Seq<(i32, i32)>, x: (i32, i32), key: (i32, i32))
    ensures
        count_of(items.push(x), key) == count_of(items, key) + if x == key { 1nat } else { 0nat },
{
    assert(items.push(x).drop_last() =~= items);
}

fn find_key(entries: &Vec<((i32, i32), u64)>, key: (i32, i32)) -> (r: Option<usize>)
    ensures
        r matches Some(i) ==> i < entries@.len() && entries@[i as int].0 == key,
        r is None ==> !entry_keys(entries@).contains(key),
{
    let mut i: usize = 0;
    while i < entries.len()
        invariant
            0 <= i <= entries@.len(),
            forall|j: int| 0 <= j < i ==> entries@[j].0 != key,
        decreases entries@.len() - i,
    {
        if entries[i].0.0 == key.0 && entries[i].0.1 == key.1 {
            return Some(i);
        }
        i = i + 1;
    }
    proof {
        if entry_keys(entries@).contains(key) {
            let j = choose|j: int| 0 <= j < entry_keys(entries@).len() && entry_keys(entries@)[j] == key;
            assert(entries@[j].0 == key);
        }
    }
    None
}

fn contains_id(ids: &Vec<i32>, id: i32) -> (r: bool)
    ensures
        r == ids@.contains(id),
{
    let mut i: usize = 0;
    while i < ids.len()
        invariant
            0 <= i <= ids@.len(),
            forall|j: int| 0 <= j < i ==> ids@[j] != id,
        decreases ids@.len() - i,
    {
        if ids[i] == id {
            return true;
        }
        i = i + 1;
    }
    false
}

/// Counts one more pair.
fn count_pair(entries: &mut Vec<((i32, i32), u64)>, Ghost(pairs): Ghost<Seq<(i32, i32)>>, item: (i32, i32))
    requires
        counts_exactly(old(entries)@, pairs),
        pairs.len() < u64::MAX,
        forall|j: int| 0 <= j < old(entries)@.len() ==> #[trigger] old(entries)@[j].1 <= pairs.len(),
    ensures
        counts_exactly(final(entries)@, pairs.push(item)),
        forall|j: int| 0 <= j < final(entries)@.len() ==> #[trigger] final(entries)@[j].1 <= pairs.len() + 1,
{
    let ghost before = entries@;
    let ghost new_pairs = pairs.push(item);
    match find_key(entries, item) {
        Some(k) => {
            let count = entries[k].1;
            entries.set(k, (item, count + 1));
            proof {
                assert(entry_keys(entries@) =~= entry_keys(before));
                assert forall|j: int| 0 <= j < entries@.len() implies #[trigger] entries@[j].1 == count_of(new_pairs, entries@[j].0)
                    && entries@[j].1 > 0 by {
                    lemma_count_push(pairs, item, entries@[j].0);
                    if j != k {
                        assert(entries@[j] == before[j]);
                        assert(entry_keys(before)[j] != entry_keys(before)[k as int]);
                    }
                }
                assert forall|key: (i32, i32)| count_of(new_pairs, key) > 0 implies entry_keys(entries@).contains(key) by {
                    lemma_count_push(pairs, item, key);
                    if key == item {
                        assert(entry_keys(entries@)[k as int] == key);
                    }
                }
            }
        },
        None => {
            entries.push((item, 1));
            proof {
                assert(entry_keys(entries@) =~= entry_keys(before).push(item));
                assert(count_of(pairs, item) == 0);
                assert forall|j: int| 0 <= j < entries@.len() implies #[trigger] entries@[j].1 == count_of(new_pairs, entries@[j].0)
                    && entries@[j].1 > 0 by {
                    lemma_count_push(pairs, item, entries@[j].0);
                    if j < before.len() {
                        assert(entries@[j] == before[j]);
                        assert(entry_keys(before)[j] == before[j].0);
                        assert(entry_keys(before).contains(before[j].0));
                        assert(before[j].0 != item);
                    }
                }
                assert forall|key: (i32, i32)| count_of(new_pairs, key) > 0 implies entry_keys(entries@).contains(key) by {
                    lemma_count_push(pairs, item, key);
                    if key == item {
                        assert(entry_keys(entries@)[before.len() as int] == key);
                    } else {
                        assert(count_of(pairs, key) > 0);
                        assert(entry_keys(before).contains(key));
                        let t = choose|t: int| 0 <= t < entry_keys(before).len() && entry_keys(before)[t] == key;
                        assert(entry_keys(entries@)[t] == key);
                    }
                }
            }
        },
    }
}

/// Counts planned items per (lot, stock) pair, keeping only items whose lot and stock both
/// exist; each pair appears once, in the order it is first met. Each item is given as its
/// (lot, stock) pair.
pub fn count_stock_entries(items: &Vec<(i32, i32)>, valid_lots: &Vec<i32>, valid_stocks: &Vec<i32>)
    -> (r: Vec<((i32, i32), u64)>)
    requires
        items@.len() <= u64::MAX,
    ensures
        counts_exactly(r@, valid_pairs(items@, valid_lots@, valid_stocks@)),
{
    let mut entries: Vec<((i32, i32), u64)> = Vec::new();
    let mut i: usize = 0;
    while i < items.len()
        invariant
            0 <= i <= items@.len(),
            items@.len() <= u64::MAX,
            counts_exactly(entries@, valid_pairs(items@.subrange(0, i as int), valid_lots@, valid_stocks@)),
            valid_pairs(items@.subrange(0, i as int), valid_lots@, valid_stocks@).len() <= i,
            forall|j: int| 0 <= j < entries@.len() ==> #[trigger] entries@[j].1 <= valid_pairs(
                items@.subrange(0, i as int),
                valid_lots@,
                valid_stocks@,
            ).len(),
        decreases items@.len() - i,
    {
        let item = items[i];
        let ghost prefix = items@.subrange(0, i as int);
        let ghost next = items@.subrange(0, i + 1);
        let ghost pairs = valid_pairs(prefix, valid_lots@, valid_stocks@);
        proof {
            assert(next.drop_last() =~= prefix);
            assert(next.last() == item);
        }
        if contains_id(valid_lots, item.0) && contains_id(valid_stocks, item.1) {
            count_pair(&mut entries, Ghost(pairs), item);
            proof {
                assert(valid_pairs(next, valid_lots@, valid_stocks@) =~= pairs.push(item));
            }
        } else {
            proof {
                assert(valid_pairs(next, valid_lots@, valid_stocks@) =~= pairs);
            }
        }
        i = i + 1;
    }
    proof {
        assert(items@.subrange(0, items@.len() as int) =~= items@);
    }
    entries
}

/// A row of the detailed stock listing: a stock, one of its shelves and one of its lots with
/// the quantity of the stock in it.
pub struct StockRow {
    pub id: i32,
    pub name: String,
    pub unit: String,
    pub shelf_name: String,
    pub lot_id: i32,
    pub lot_number: String,
    pub lot_status: i32,
    pub lot_supplier: Option<String>,
    pub quantity: i32,
}

/// A lot of a listed stock, with the row it was read from.
pub struct StockLot {
    pub id: i32,
    pub lot_number: String,
    pub status: LotStatus,
    pub supplier: Option<String>,
    pub quantity: i32,
    pub row: usize,
}

/// A stock of the detailed listing: its shelves, each once, in the order first met; its lots
/// in row order; and its total quantity.
pub struct StockSummary {
    pub id: i32,
    pub name: String,
    pub unit: String,
    pub shelves: Vec<String>,
    pub lots: Vec<StockLot>,
    pub quantity: i64,
}

/// A row whose lot has a state code that no state has.
#[derive(Clone, Copy, Debug, PartialEq, Eq, Structural)]
pub struct BadLotStatus {
    pub lot_id: i32,
    pub code: i32,
}

/// The first row whose lot state code stands for no state.
pub open spec fn first_bad_status(rows: Seq<StockRow>) -> Option<int>
    decreases rows.len(),
{
    if rows.len() == 0 {
        None
    } else {
        match first_bad_status(rows.drop_last()) {
            Some(k) => Some(k),
            None => if LotStatus::of_code(rows.last().lot_status) is None {
                Some(rows.len() - 1)
            } else {
                None
            },
        }
    }
}

/// The stocks of the rows, in increasing order, each once.
pub open spec fn stock_order(rows: Seq<StockRow>) -> Seq<i64>
    decreases rows.len(),
{
    if rows.len() == 0 {
        seq![]
    } else {
        insert_sorted(stock_order(rows.drop_last()), rows.last().id as i64)
    }
}

/// The places of the rows of stock `id`, in order.
pub open spec fn rows_of(rows: Seq<StockRow>, id: i64) -> Seq<int>
    decreases rows.len(),
{
    if rows.len() == 0 {
        seq![]
    } else if rows.last().id as i64 == id {
        rows_of(rows.drop_last(), id).push(rows.len() - 1)
    } else {
        rows_of(rows.drop_last(), id)
    }
}

/// The shelf names at the given rows, each once, in the order first met.
pub open spec fn shelves_at(rows: Seq<StockRow>, at: Seq<int>) -> Seq<Seq<char>>
    decreases at.len(),
{
    if at.len() == 0 {
        seq![]
    } else {
        let prev = shelves_at(rows, at.drop_last());
        let name = rows[at.last()].shelf_name@;
        if prev.contains(name) { prev } else { prev.push(name) }
    }
}

/// The total quantity at the given rows.
pub open spec fn quantity_at(rows: Seq<StockRow>, at: Seq<int>) -> int
    decreases at.len(),
{
    if at.len() == 0 {
        0
    } else {
        quantity_at(rows, at.drop_last()) + rows[at.last()].quantity
    }
}

/// Whether `lot` is what the listing makes of row `k`.
pub open spec fn lot_of_row(lot: StockLot, rows: Seq<StockRow>, k: int) -> bool {
    &&& lot.row == k
    &&& lot.id == rows[k].lot_id
    &&& lot.lot_number@ == rows[k].lot_number@
    &&& LotStatus::of_code(rows[k].lot_status) == Some(lot.status)
    &&& match (lot.supplier, rows[k].lot_supplier) {
        (Some(a), Some(b)) => a@ == b@,
        (None, None) => true,
        _ => false,
    }
    &&& lot.quantity == rows[k].quantity
}

/// Whether `s` is the summary of stock `id` over the rows.
pub open spec fn summarizes(s: StockSummary, rows: Seq<StockRow>, id: i64) -> bool {
    let at = rows_of(rows, id);
    &&& s.id as i64 == id
    &&& at.len() > 0
    &&& s.name@ == rows[at[0]].name@
    &&& s.unit@ == rows[at[0]].unit@
    &&& s.shelves@.map_values(|n: String| n@) == shelves_at(rows, at)
    &&& s.lots@.len() == at.len()
    &&& forall|t: int| 0 <= t < at.len() ==> lot_of_row(#[trigger] s.lots@[t], rows, at[t])
    &&& s.quantity == quantity_at(rows, at)
}

/// The detailed listing lists stocks in increasing order of id, each once, and exactly the
/// stocks that have rows.
pub proof fn lemma_stock_order(rows: Seq<StockRow>)
    ensures
        forall|x: int, y: int| 0 <= x < y < stock_order(rows).len() ==> stock_order(rows)[x] < stock_order(rows)[y],
        forall|id: i64| stock_order(rows).contains(id) <==> rows_of(rows, id).len() > 0,
    decreases rows.len(),
{
    if rows.len() > 0 {
        lemma_stock_order(rows.drop_last());
        lemma_insert_sorted(stock_order(rows.drop_last()), rows.last().id as i64);
        assert forall|id: i64| stock_order(rows).contains(id) <==> rows_of(rows, id).len() > 0 by {
            if stock_order(rows.drop_last()).contains(id) {
                assert(rows_of(rows.drop_last(), id).len() > 0);
            }
            if rows_of(rows, id).len() > 0 && rows.last().id as i64 != id {
                assert(rows_of(rows.drop_last(), id).len() > 0);
            }
        }
    }
}

proof fn lemma_rows_of_bounds(rows: Seq<StockRow>, id: i64)
    ensures
        forall|t: int| 0 <= t < rows_of(rows, id).len() ==> 0 <= #[trigger] rows_of(rows, id)[t] < rows.len()
            && rows[rows_of(rows, id)[t]].id as i64 == id,
    decreases rows.len(),
{
    if rows.len() > 0 {
        lemma_rows_of_bounds(rows.drop_last(), id);
        assert forall|t: int| 0 <= t < rows_of(rows, id).len() implies 0 <= #[trigger] rows_of(rows, id)[t] < rows.len()
            && rows[rows_of(rows, id)[t]].id as i64 == id by {
            if t < rows_of(rows.drop_last(), id).len() {
                assert(rows_of(rows, id)[t] == rows_of(rows.drop_last(), id)[t]);
                assert(rows[rows_of(rows, id)[t]] == rows.drop_last()[rows_of(rows, id)[t]]);
            }
        }
    }
}

/// Whether the shelf names hold `name`.
fn has_shelf(shelves: &Vec<String>, name: &str) -> (r: bool)
    ensures
        r == shelves@.map_values(|n: String| n@).contains(name@),
{
    let mut i: usize = 0;
    while i < shelves.len()
        invariant
            i <= shelves@.len(),
            forall|k: int| 0 <= k < i ==> shelves@[k]@ != name@,
        decreases shelves@.len() - i,
    {
        if text_is(shelves[i].as_str(), name) {
            assert(shelves@.map_values(|n: String| n@)[i as int] == name@);
            return true;
        }
        i = i + 1;
    }
    false
}

/// Every row's lot state is known when no row's is unknown.
proof fn lemma_no_bad_status(rows: Seq<StockRow>)
    requires
        first_bad_status(rows) is None,
    ensures
        forall|k: int| 0 <= k < rows.len() ==> LotStatus::of_code(#[trigger] rows[k].lot_status) is Some,
    decreases rows.len(),
{
    if rows.len() > 0 {
        lemma_no_bad_status(rows.drop_last());
        assert forall|k: int| 0 <= k < rows.len() implies LotStatus::of_code(#[trigger] rows[k].lot_status) is Some by {
            if k < rows.len() - 1 {
                assert(rows[k] == rows.drop_last()[k]);
            }
        }
    }
}

/// Whether every running total of the quantities of each stock fits in an `i64`.
pub open spec fn totals_fit(rows: Seq<StockRow>) -> bool {
    forall|k: int, id: i64| 0 <= k <= rows.len() ==> i64::MIN <= #[trigger] quantity_at(rows, rows_of(rows.take(k), id))
        <= i64::MAX
}

/// Running quantities and shelves only read the rows they name.
proof fn lemma_at_push(rows: Seq<StockRow>, at: Seq<int>, k: int)
    ensures
        quantity_at(rows, at.push(k)) == quantity_at(rows, at) + rows[k].quantity,
        shelves_at(rows, at.push(k)) == if shelves_at(rows, at).contains(rows[k].shelf_name@) {
            shelves_at(rows, at)
        } else {
            shelves_at(rows, at).push(rows[k].shelf_name@)
        },
{
    assert(at.push(k).drop_last() =~= at);
}

/// Summarizes one stock of the rows.
fn summarize_one(rows: &Vec<StockRow>, id: i64) -> (r: StockSummary)
    requires
        first_bad_status(rows@) is None,
        totals_fit(rows@),
        rows_of(rows@, id).len() > 0,
        i32::MIN <= id <= i32::MAX,
    ensures
        summarizes(r, rows@, id),
{
    proof {
        lemma_rows_of_bounds(rows@, id);
        lemma_no_bad_status(rows@);
    }
    let ghost at = rows_of(rows@, id);
    let mut shelves: Vec<String> = Vec::new();
    let mut lots: Vec<StockLot> = Vec::new();
    let mut quantity: i64 = 0;
    let mut first: usize = 0;
    let mut found = false;
    let mut k: usize = 0;
    proof {
        assert(rows@.take(0) =~= Seq::<StockRow>::empty());
        assert(shelves@.map_values(|n: String| n@) =~= Seq::<Seq<char>>::empty());
    }
    while k < rows.len()
        invariant
            k <= rows@.len(),
            first_bad_status(rows@) is None,
            totals_fit(rows@),
            at == rows_of(rows@, id),
            forall|t: int| 0 <= t < at.len() ==> 0 <= #[trigger] at[t] < rows@.len() && rows@[at[t]].id as i64 == id,
            forall|j: int| 0 <= j < rows@.len() ==> LotStatus::of_code(#[trigger] rows@[j].lot_status) is Some,
            shelves@.map_values(|n: String| n@) == shelves_at(rows@, rows_of(rows@.take(k as int), id)),
            lots@.len() == rows_of(rows@.take(k as int), id).len(),
            forall|t: int| 0 <= t < lots@.len() ==> lot_of_row(#[trigger] lots@[t], rows@, rows_of(rows@.take(k as int), id)[t]),
            quantity == quantity_at(rows@, rows_of(rows@.take(k as int), id)),
            found == (rows_of(rows@.take(k as int), id).len() > 0),
            found ==> first == rows_of(rows@.take(k as int), id)[0],
        decreases rows@.len() - k,
    {
        let ghost pre = rows_of(rows@.take(k as int), id);
        proof {
            assert(rows@.take(k + 1).drop_last() =~= rows@.take(k as int));
            assert(rows@.take(k + 1).last() == rows@[k as int]);
        }
        let row = &rows[k];
        if row.id as i64 == id {
            proof {
                assert(rows_of(rows@.take(k + 1), id) == pre.push(k as int));
                lemma_at_push(rows@, pre, k as int);
                assert(i64::MIN <= quantity_at(rows@, rows_of(rows@.take(k + 1), id)) <= i64::MAX);
            }
            if !found {
                first = k;
                found = true;
            }
            let ghost before_shelves = shelves@;
            if !has_shelf(&shelves, row.shelf_name.as_str()) {
                let name = row.shelf_name.clone();
                shelves.push(name);
                proof {
                    assert(shelves@.map_values(|n: String| n@) =~= before_shelves.map_values(|n: String| n@).push(name@));
                }
            }
            let status = match LotStatus::try_from_code(row.lot_status) {
                Ok(s) => s,
                Err(_) => {
                    proof {
                        assert(LotStatus::of_code(rows@[k as int].lot_status) is Some);
                    }
                    return vstd::pervasive::unreached();
                },
            };
            let supplier = match &row.lot_supplier {
                Some(s) => Some(s.clone()),
                None => None,
            };
            let ghost before_lots = lots@;
            lots.push(StockLot {
                id: row.lot_id,
                lot_number: row.lot_number.clone(),
                status,
                supplier,
                quantity: row.quantity,
                row: k,
            });
            quantity = quantity + row.quantity as i64;
            proof {
                let now = rows_of(rows@.take(k + 1), id);
                assert forall|t: int| 0 <= t < lots@.len() implies lot_of_row(#[trigger] lots@[t], rows@, now[t]) by {
                    if t < before_lots.len() {
                        assert(lots@[t] == before_lots[t]);
                        assert(now[t] == pre[t]);
                    }
                }
            }
        } else {
            proof {
                assert(rows_of(rows@.take(k + 1), id) == pre);
            }
        }
        k = k + 1;
    }
    proof {
        assert(rows@.take(k as int) =~= rows@);
    }
    let row = &rows[first];
    StockSummary {
        id: id as i32,
        name: row.name.clone(),
        unit: row.unit.clone(),
        shelves,
        lots,
        quantity,
    }
}

/// Groups the rows of the detailed stock listing by stock, in increasing order of stock id:
/// the first row whose lot state code stands for no state is refused instead.
pub fn summarize_stocks(rows: &Vec<StockRow>) -> (r: Result<Vec<StockSummary>, BadLotStatus>)
    requires
        totals_fit(rows@),
    ensures
        match first_bad_status(rows@) {
            Some(k) => r == Err::<Vec<StockSummary>, BadLotStatus>(
                BadLotStatus { lot_id: rows@[k].lot_id, code: rows@[k].lot_status },
            ),
            None => r matches Ok(v) && v@.len() == stock_order(rows@).len() && forall|j: int|
                0 <= j < v@.len() ==> summarizes(#[trigger] v@[j], rows@, stock_order(rows@)[j]),
        },
{
    let mut k: usize = 0;
    while k < rows.len()
        invariant
            k <= rows@.len(),
            first_bad_status(rows@.take(k as int)) is None,
        decreases rows@.len() - k,
    {
        proof {
            assert(rows@.take(k + 1).drop_last() =~= rows@.take(k as int));
        }
        if LotStatus::try_from_code(rows[k].lot_status).is_err() {
            proof {
                lemma_first_bad_extends(rows@, k as int);
            }
            return Err(BadLotStatus { lot_id: rows[k].lot_id, code: rows[k].lot_status });
        }
        k = k + 1;
    }
    proof {
        assert(rows@.take(k as int) =~= rows@);
    }
    let mut ids: Vec<i64> = Vec::new();
    let mut m: usize = 0;
    while m < rows.len()
        invariant
            m <= rows@.len(),
            ids@ == stock_order(rows@.take(m as int)),
        decreases rows@.len() - m,
    {
        proof {
            assert(rows@.take(m + 1).drop_last() =~= rows@.take(m as int));
        }
        insert_block(&mut ids, rows[m].id as i64);
        m = m + 1;
    }
    proof {
        assert(rows@.take(m as int) =~= rows@);
        lemma_stock_order(rows@);
    }
    let mut out: Vec<StockSummary> = Vec::new();
    let mut n: usize = 0;
    while n < ids.len()
        invariant
            n <= ids@.len(),
            ids@ == stock_order(rows@),
            first_bad_status(rows@) is None,
            totals_fit(rows@),
            forall|id: i64| stock_order(rows@).contains(id) ==> rows_of(rows@, id).len() > 0,
            out@.len() == n,
            forall|j: int| 0 <= j < n ==> summarizes(#[trigger] out@[j], rows@, stock_order(rows@)[j]),
        decreases ids@.len() - n,
    {
        let id = ids[n];
        proof {
            assert(stock_order(rows@).contains(id));
            lemma_rows_of_bounds(rows@, id);
            let at = rows_of(rows@, id);
            assert(rows@[at[0]].id as i64 == id);
        }
        let summary = summarize_one(rows, id);
        out.push(summary);
        n = n + 1;
    }
    Ok(out)
}

/// The first unknown lot state is the one of row `k` when the rows before it are all known.
proof fn lemma_first_bad_extends(rows: Seq<StockRow>, k: int)
    requires
        0 <= k < rows.len(),
        first_bad_status(rows.take(k)) is None,
        LotStatus::of_code(rows[k].lot_status) is None,
    ensures
        first_bad_status(rows) == Some(k),
{
    assert(rows.take(k + 1).drop_last() =~= rows.take(k));
    if k + 1 < rows.len() {
        lemma_first_bad_prefix(rows, k + 1);
    } else {
        assert(rows.take(k + 1) =~= rows);
    }
}

/// Once some row is unknown, longer prefixes keep that first unknown row.
proof fn lemma_first_bad_prefix(rows: Seq<StockRow>, j: int)
    requires
        0 < j <= rows.len(),
        first_bad_status(rows.take(j)) is Some,
    ensures
        first_bad_status(rows) == first_bad_status(rows.take(j)),
    decreases rows.len() - j,
{
    if j < rows.len() {
        assert(rows.take(j + 1).drop_last() =~= rows.take(j));
        lemma_first_bad_prefix(rows, j + 1);
    } else {
        assert(rows.take(j) =~= rows);
    }
}

/// An item of an import into the warehouse, as sent.
pub struct ImportItem {
    pub id: Option<i32>,
    pub shelf: Option<String>,
    pub stock_id: Option<i32>,
    pub status: String,
}

/// Why an import is refused.
#[derive(Clone, Debug, PartialEq, Eq)]
pub enum ImportError {
    /// An item has no id.
    MissingId,
    /// The item with this id names no shelf.
    MissingShelf(i32),
    /// An item's state has this name, which no state has.
    BadStatus(String),
    /// An item that is imported has no stock.
    MissingStock,
}

/// An item an import updates: the row it was sent in, its id, its shelf and its state.
#[derive(Clone, Copy, Debug, PartialEq, Eq, Structural)]
pub struct ItemUpdate {
    pub row: usize,
    pub item_id: i32,
    pub shelf_id: i32,
    pub status: ItemStatus,
}

/// What an import does: the items it updates, in order, and how many items each (shelf,
/// stock) pair gains.
pub struct ImportPlan {
    pub updates: Vec<ItemUpdate>,
    pub counts: Vec<((i32, i32), u64)>,
}

/// The id of the shelf named `name`: the last of the shelves with that name.
pub open spec fn shelf_id_of(shelves: Seq<(String, i32)>, name: Seq<char>) -> Option<i32>
    decreases shelves.len(),
{
    if shelves.len() == 0 {
        None
    } else if shelves.last().0@ == name {
        Some(shelves.last().1)
    } else {
        shelf_id_of(shelves.drop_last(), name)
    }
}

/// What an import makes of its items, one after the other: an item without id, or without
/// shelf, or whose state has no name, refuses the import; an item of an unknown shelf stops
/// it (`None`); each item already known (its id among `known`) is updated.
pub open spec fn planned_updates(items: Seq<ImportItem>, shelves: Seq<(String, i32)>, known: Seq<i32>) -> Option<
    Result<Seq<ItemUpdate>, ImportError>,
>
    decreases items.len(),
{
    if items.len() == 0 {
        Some(Ok(seq![]))
    } else {
        match planned_updates(items.drop_last(), shelves, known) {
            Some(Ok(updates)) => {
                let item = items.last();
                match item.id {
                    None => Some(Err(ImportError::MissingId)),
                    Some(id) => match item.shelf {
                        None => Some(Err(ImportError::MissingShelf(id))),
                        Some(name) => match shelf_id_of(shelves, name@) {
                            None => None,
                            Some(shelf_id) => match ItemStatus::of_name(item.status@) {
                                None => Some(Err(ImportError::BadStatus(item.status))),
                                Some(status) => Some(Ok(if known.contains(id) {
                                    updates.push(ItemUpdate { row: (items.len() - 1) as usize, item_id: id, shelf_id, status })
                                } else {
                                    updates
                                })),
                            },
                        },
                    },
                }
            },
            other => other,
        }
    }
}

/// The (shelf, stock) pairs of the updates, or `None` where an updated item has no stock.
pub open spec fn update_pairs(items: Seq<ImportItem>, updates: Seq<ItemUpdate>) -> Option<Seq<(i32, i32)>>
    decreases updates.len(),
{
    if updates.len() == 0 {
        Some(seq![])
    } else {
        match update_pairs(items, updates.drop_last()) {
            Some(p) => match items[updates.last().row as int].stock_id {
                Some(stock) => Some(p.push((updates.last().shelf_id, stock))),
                None => None,
            },
            None => None,
        }
    }
}

/// The id of the shelf named `name`.
fn find_shelf(shelves: &Vec<(String, i32)>, name: &str) -> (r: Option<i32>)
    ensures
        r == shelf_id_of(shelves@, name@),
{
    let mut i = shelves.len();
    assert(shelves@.take(i as int) =~= shelves@);
    while i > 0
        invariant
            i <= shelves@.len(),
            shelf_id_of(shelves@, name@) == shelf_id_of(shelves@.take(i as int), name@),
        decreases i,
    {
        assert(shelves@.take(i as int).drop_last() =~= shelves@.take(i - 1));
        if text_is(shelves[i - 1].0.as_str(), name) {
            return Some(shelves[i - 1].1);
        }
        i = i - 1;
    }
    None
}

/// Plans an import of items into the warehouse given its shelves (by name) and the ids of
/// the items it already knows: which items are updated, to which shelf and state, and how
/// many items each (shelf, stock) pair gains.
pub fn plan_import(items: &Vec<ImportItem>, shelves: &Vec<(String, i32)>, known: &Vec<i32>) -> (r: Result<
    ImportPlan,
    ImportError,
>)
    requires
        planned_updates(items@, shelves@, known@) is Some,
        items@.len() < u64::MAX,
    ensures
        match planned_updates(items@, shelves@, known@) {
            Some(Err(e)) => r == Err::<ImportPlan, ImportError>(e),
            Some(Ok(updates)) => match update_pairs(items@, updates) {
                None => r == Err::<ImportPlan, ImportError>(ImportError::MissingStock),
                Some(pairs) => r matches Ok(plan) && plan.updates@ == updates && counts_exactly(plan.counts@, pairs),
            },
            None => false,
        },
{
    let mut updates: Vec<ItemUpdate> = Vec::new();
    let mut k: usize = 0;
    while k < items.len()
        invariant
            k <= items@.len(),
            planned_updates(items@, shelves@, known@) is Some,
            planned_updates(items@.take(k as int), shelves@, known@) == Some(Ok::<Seq<ItemUpdate>, ImportError>(updates@)),
            forall|t: int| 0 <= t < updates@.len() ==> (#[trigger] updates@[t]).row < k,
            updates@.len() <= k,
        decreases items@.len() - k,
    {
        proof {
            assert(items@.take(k + 1).drop_last() =~= items@.take(k as int));
            lemma_planned_prefix(items@, shelves@, known@, k + 1);
        }
        let item = &items[k];
        let id = match item.id {
            Some(id) => id,
            None => {
                proof {
                    lemma_planned_error_stays(items@, shelves@, known@, k + 1);
                }
                return Err(ImportError::MissingId);
            },
        };
        let name = match &item.shelf {
            Some(name) => name,
            None => {
                proof {
                    lemma_planned_error_stays(items@, shelves@, known@, k + 1);
                }
                return Err(ImportError::MissingShelf(id));
            },
        };
        let shelf_id = match find_shelf(shelves, name.as_str()) {
            Some(s) => s,
            None => {
                proof {
                    lemma_planned_prefix(items@, shelves@, known@, k + 1);
                }
                return vstd::pervasive::unreached();
            },
        };
        let status = match ItemStatus::try_from_name(item.status.as_str()) {
            Ok(s) => s,
            Err(_) => {
                proof {
                    lemma_planned_error_stays(items@, shelves@, known@, k + 1);
                }
                return Err(ImportError::BadStatus(item.status.clone()));
            },
        };
        if contains_id(known, id) {
            updates.push(ItemUpdate { row: k, item_id: id, shelf_id, status });
        }
        k = k + 1;
    }
    proof {
        assert(items@.take(k as int) =~= items@);
    }
    let ghost all = updates@;
    let mut counts: Vec<((i32, i32), u64)> = Vec::new();
    let mut n: usize = 0;
    proof {
        assert(all.take(0) =~= Seq::<ItemUpdate>::empty());
    }
    while n < updates.len()
        invariant
            n <= updates@.len(),
            all == updates@,
            planned_updates(items@, shelves@, known@) == Some(Ok::<Seq<ItemUpdate>, ImportError>(all)),
            updates@.len() <= items@.len(),
            items@.len() < u64::MAX,
            forall|t: int| 0 <= t < updates@.len() ==> (#[trigger] updates@[t]).row < items@.len(),
            update_pairs(items@, all.take(n as int)) matches Some(p) && counts_exactly(counts@, p) && p.len() == n
                && forall|j: int| 0 <= j < counts@.len() ==> #[trigger] counts@[j].1 <= p.len(),
        decreases updates@.len() - n,
    {
        let u = updates[n];
        let ghost prev = update_pairs(items@, all.take(n as int))->Some_0;
        proof {
            assert(all.take(n + 1).drop_last() =~= all.take(n as int));
        }
        match items[u.row].stock_id {
            Some(stock) => {
                count_pair(&mut counts, Ghost(prev), (u.shelf_id, stock));
            },
            None => {
                proof {
                    assert(all.take(n + 1).last() == u);
                    assert(update_pairs(items@, all.take(n + 1)) is None);
                    lemma_update_pairs_none_stays(items@, all, n + 1);
                }
                return Err(ImportError::MissingStock);
            },
        }
        n = n + 1;
    }
    proof {
        assert(all.take(n as int) =~= all);
    }
    Ok(ImportPlan { updates, counts })
}

/// The plan of a longer list goes through the plan of its first items.
proof fn lemma_planned_prefix(items: Seq<ImportItem>, shelves: Seq<(String, i32)>, known: Seq<i32>, k: int)
    requires
        0 <= k <= items.len(),
        planned_updates(items, shelves, known) is Some,
    ensures
        planned_updates(items.take(k), shelves, known) is Some,
    decreases items.len() - k,
{
    if k < items.len() {
        lemma_planned_prefix(items, shelves, known, k + 1);
        assert(items.take(k + 1).drop_last() =~= items.take(k));
    } else {
        assert(items.take(k) =~= items);
    }
}

/// A refusal of the first items is the refusal of the whole list.
proof fn lemma_planned_error_stays(items: Seq<ImportItem>, shelves: Seq<(String, i32)>, known: Seq<i32>, k: int)
    requires
        0 <= k <= items.len(),
        planned_updates(items.take(k), shelves, known) matches Some(Err(_)),
    ensures
        planned_updates(items, shelves, known) == planned_updates(items.take(k), shelves, known),
    decreases items.len() - k,
{
    if k < items.len() {
        assert(items.take(k + 1).drop_last() =~= items.take(k));
        lemma_planned_error_stays(items, shelves, known, k + 1);
    } else {
        assert(items.take(k) =~= items);
    }
}

/// An update without stock among the first updates leaves the pairs of all of them unknown.
proof fn lemma_update_pairs_none_stays(items: Seq<ImportItem>, updates: Seq<ItemUpdate>, n: int)
    requires
        0 <= n <= updates.len(),
        update_pairs(items, updates.take(n)) is None,
    ensures
        update_pairs(items, updates) is None,
    decreases updates.len() - n,
{
    if n < updates.len() {
        assert(updates.take(n + 1).drop_last() =~= updates.take(n));
        lemma_update_pairs_none_stays(items, updates, n + 1);
    } else {
        assert(updates.take(n) =~= updates);
    }
}

/// The state shown for an item found by its barcode: sold out once it belongs to an order,
/// in stock otherwise.
pub fn barcode_state(order_id: Option<i32>) -> (r: &'static str)
    ensures
        r@ == if order_id is None { "in-stock"@ } else { "sold-out"@ },
{
    if order_id.is_none() {
        "in-stock"
    } else {
        "sold-out"
    }
}

} // verus!
