//! Named time series for the rule engine: each series keeps its newest values first, up to a
//! fixed length, and, where the values are written out to object storage, a buffer of what
//! came in since the last write.
use crate::candle_cache::trunc_div;
use crate::seo::{calendar_date, utc_date_text};
use crate::text::{
    format_i64, int_text, is_digit, lemma_digits_of, lemma_int_text_round_trip, parse_i64,
    parse_integer, text_is,
};
use vstd::prelude::*;

verus! {

/// Why an operation on the series failed.
#[derive(Debug, PartialEq, Eq)]
pub enum VariableError {
    /// A series of this name exists already.
    AlreadyExists(String),
    /// The buffers are out of step with the series, so this one cannot be added.
    CannotCreate(String),
    /// No series has this name.
    NotFound(String),
    /// The series of this name holds nothing.
    Empty(String),
    /// The series (second) has no value at the index (first).
    OutOfBounds(usize, String),
    /// The expression is not of the form `name[index]`.
    InvalidExpression(String),
    /// The index of an expression is not a number.
    InvalidIndex(String),
    /// The buffer of this column lags the others by more than one value.
    MissingValue(String),
    /// No buffer has this name.
    BufferNotFound(String),
    /// No object name has been set for the written files.
    NameNotSet,
    /// No written file of this scope was found.
    NoTimestamps(String),
    /// The folder holds nothing.
    FolderEmpty,
}

/// The names as text.
pub open spec fn texts(names: Seq<String>) -> Seq<Seq<char>> {
    names.map_values(|s: String| s@)
}

/// Where `name` stands among `names`.
pub open spec fn index_of(names: Seq<Seq<char>>, name: Seq<char>) -> int {
    choose|i: int| 0 <= i < names.len() && names[i] == name
}

/// How many values a series of length limit `size` holds at most: a limit of zero still
/// keeps the newest value.
pub open spec fn capacity(size: nat) -> nat {
    if size == 0 {
        1
    } else {
        size
    }
}

/// A series after `v` comes in: `v` goes in front, and where the series is at its limit its
/// oldest value leaves.
pub open spec fn pushed<T>(s: Seq<T>, v: T, size: nat) -> Seq<T> {
    seq![v] + (if s.len() > 0 && s.len() >= size {
        s.drop_last()
    } else {
        s
    })
}

/// The series of the rule engine, with values of type `T`.
pub struct Variables<T> {
    names: Vec<String>,
    series: Vec<Vec<T>>,
    buffers: Vec<Option<Vec<T>>>,
    series_size: usize,
    buffers_size: usize,
    scopes: Vec<(String, Vec<String>)>,
    storage: Option<(String, String)>,
}

impl<T: Copy> Variables<T> {
    /// The names of the series, in the order they were created.
    pub closed spec fn names(&self) -> Seq<Seq<char>> {
        texts(self.names@)
    }

    /// The series, in the order of `names`, each newest value first.
    pub closed spec fn all_series(&self) -> Seq<Seq<T>> {
        self.series@.map_values(|v: Vec<T>| v@)
    }

    /// The buffers, in the order of `names`; a series written out to storage has one.
    pub closed spec fn all_buffers(&self) -> Seq<Option<Seq<T>>> {
        self.buffers@.map_values(|b: Option<Vec<T>>| match b {
            Some(v) => Some(v@),
            None => None,
        })
    }

    /// The longest a series grows.
    pub closed spec fn size(&self) -> nat {
        self.series_size as nat
    }

    /// How many buffered rows call for a write.
    pub closed spec fn flush_size(&self) -> nat {
        self.buffers_size as nat
    }

    /// The scopes, each with the columns it covers, in the order they were first set.
    pub closed spec fn scopes(&self) -> Seq<(Seq<char>, Seq<Seq<char>>)> {
        self.scopes@.map_values(|e: (String, Vec<String>)| (e.0@, texts(e.1@)))
    }

    /// The bucket and the object name of the storage the buffers are written to, once set.
    pub closed spec fn storage(&self) -> Option<(Seq<char>, Seq<char>)> {
        match self.storage {
            Some(s) => Some((s.0@, s.1@)),
            None => None,
        }
    }

    /// The series named `name`, where there is one.
    pub open spec fn series_of(&self, name: Seq<char>) -> Option<Seq<T>> {
        if self.names().contains(name) {
            Some(self.all_series()[index_of(self.names(), name)])
        } else {
            None
        }
    }

    /// The buffer named `name`, where there is one.
    pub open spec fn buffer_of(&self, name: Seq<char>) -> Option<Seq<T>> {
        if self.names().contains(name) {
            self.all_buffers()[index_of(self.names(), name)]
        } else {
            None
        }
    }

    /// The store is consistent: one series, one buffer slot per name, no name twice, no
    /// scope twice, and no series longer than its limit allows.
    pub closed spec fn wf(&self) -> bool {
        &&& self.series@.len() == self.names@.len()
        &&& self.buffers@.len() == self.names@.len()
        &&& self.names().no_duplicates()
        &&& self.scopes().map_values(|e: (Seq<char>, Seq<Seq<char>>)| e.0).no_duplicates()
        &&& forall|i: int| 0 <= i < self.series@.len() ==> #[trigger] self.series@[i]@.len() <= capacity(
            self.series_size as nat,
        )
    }

    /// An empty store whose series keep `timeseries_size` values and whose buffers are
    /// written out after `flush_after_incremental_size` rows.
    pub fn new(timeseries_size: usize, flush_after_incremental_size: usize) -> (r: Self)
        ensures
            r.wf(),
            r.names() == Seq::<Seq<char>>::empty(),
            r.size() == timeseries_size,
            r.flush_size() == flush_after_incremental_size,
            r.scopes() == Seq::<(Seq<char>, Seq<Seq<char>>)>::empty(),
            r.storage() is None,
    {
        let r = Variables {
            names: Vec::new(),
            series: Vec::new(),
            buffers: Vec::new(),
            series_size: timeseries_size,
            buffers_size: flush_after_incremental_size,
            scopes: Vec::new(),
            storage: None,
        };
        proof {
            assert(r.names() =~= Seq::<Seq<char>>::empty());
            assert(r.scopes() =~= Seq::<(Seq<char>, Seq<Seq<char>>)>::empty());
            assert(r.scopes().map_values(|e: (Seq<char>, Seq<Seq<char>>)| e.0) =~= Seq::<Seq<char>>::empty());
        }
        r
    }

    /// Where the series `name` stands, if there is one.
    fn position(&self, name: &str) -> (r: Option<usize>)
        requires
            self.wf(),
        ensures
            match r {
                Some(i) => i < self.names@.len() && self.names()[i as int] == name@ && index_of(self.names(), name@)
                    == i && self.names().contains(name@),
                None => !self.names().contains(name@),
            },
    {
        let mut i: usize = 0;
        while i < self.names.len()
            invariant
                self.wf(),
                i <= self.names@.len(),
                forall|k: int| 0 <= k < i ==> self.names()[k] != name@,
            decreases self.names@.len() - i,
        {
            if text_is(self.names[i].as_str(), name) {
                proof {
                    let names = self.names();
                    assert(names[i as int] == name@);
                    let j = index_of(names, name@);
                    assert(0 <= j < names.len() && names[j] == name@);
                    assert(j == i as int);
                }
                return Some(i);
            }
            i = i + 1;
        }
        None
    }
}


impl<T: Copy> Variables<T> {
    /// Whether some series has no buffer.
    pub open spec fn unbuffered(&self) -> bool {
        exists|i: int| 0 <= i < self.all_buffers().len() && self.all_buffers()[i] is None
    }

    /// Adds an empty series `name`. With storage set, every series must have a buffer; the
    /// buffers are then emptied and the new series gets an empty one too.
    pub fn create(&mut self, name: &str) -> (r: Result<(), VariableError>)
        requires
            old(self).wf(),
        ensures
            final(self).wf(),
            old(self).names().contains(name@) ==> (r matches Err(VariableError::AlreadyExists(n)) && n@ == name@
                && *final(self) == *old(self)),
            !old(self).names().contains(name@) && old(self).storage() is Some && old(self).unbuffered() ==> (r matches Err(
                VariableError::CannotCreate(n),
            ) && n@ == name@ && *final(self) == *old(self)),
            !old(self).names().contains(name@) && !(old(self).storage() is Some && old(self).unbuffered()) ==> {
                &&& r is Ok
                &&& final(self).names() == old(self).names().push(name@)
                &&& final(self).all_series() == old(self).all_series().push(Seq::<T>::empty())
                &&& final(self).all_buffers() == if old(self).storage() is Some {
                    Seq::new(old(self).names().len() + 1, |i: int| Some(Seq::<T>::empty()))
                } else {
                    old(self).all_buffers().push(None)
                }
                &&& final(self).size() == old(self).size()
                &&& final(self).flush_size() == old(self).flush_size()
                &&& final(self).scopes() == old(self).scopes()
                &&& final(self).storage() == old(self).storage()
            },
    {
        if self.position(name).is_some() {
            return Err(VariableError::AlreadyExists(name.to_owned()));
        }
        let ghost before = old(self).all_buffers();
        if self.storage.is_some() {
            let mut i: usize = 0;
            while i < self.buffers.len()
                invariant
                    self.wf(),
                    *self == *old(self),
                    self.storage is Some,
                    !old(self).names().contains(name@),
                    before == self.all_buffers(),
                    i <= self.buffers@.len(),
                    forall|k: int| 0 <= k < i ==> before[k] is Some,
                decreases self.buffers@.len() - i,
            {
                if self.buffers[i].is_none() {
                    proof {
                        assert(before[i as int] is None);
                    }
                    return Err(VariableError::CannotCreate(name.to_owned()));
                }
                i = i + 1;
            }
            let mut j: usize = 0;
            while j < self.buffers.len()
                invariant
                    self.series@ == old(self).series@,
                    self.names@ == old(self).names@,
                    self.scopes@ == old(self).scopes@,
                    self.storage == old(self).storage,
                    self.series_size == old(self).series_size,
                    self.buffers_size == old(self).buffers_size,
                    self.buffers@.len() == old(self).buffers@.len(),
                    j <= self.buffers@.len(),
                    forall|k: int| 0 <= k < j ==> (#[trigger] self.buffers@[k] matches Some(b) && b@.len() == 0),
                decreases self.buffers@.len() - j,
            {
                self.buffers.set(j, Some(Vec::new()));
                j = j + 1;
            }
            let fresh: Vec<T> = Vec::new();
            self.buffers.push(Some(fresh));
            proof {
                assert(self.all_buffers() =~= Seq::new(old(self).names().len() + 1, |i: int| Some(Seq::<T>::empty())))
                    by {
                    assert forall|k: int| 0 <= k < self.buffers@.len() implies self.all_buffers()[k] == Some(
                        Seq::<T>::empty(),
                    ) by {
                        if k < j {
                            assert(self.buffers@[k] matches Some(b) && b@.len() == 0);
                        } else {
                            assert(self.buffers@[k] == Some(fresh));
                        }
                        let b = self.buffers@[k]->0;
                        assert(b@ =~= Seq::<T>::empty());
                    }
                }
            }
        } else {
            self.buffers.push(None);
            proof {
                assert(self.all_buffers() =~= old(self).all_buffers().push(None));
            }
        }
        let ghost names_before = self.names();
        self.names.push(name.to_owned());
        self.series.push(Vec::new());
        proof {
            assert(self.names() =~= names_before.push(name@));
            assert(self.all_series() =~= old(self).all_series().push(Seq::<T>::empty()));
            assert(self.scopes() == old(self).scopes());
            assert forall|i: int| 0 <= i < self.series@.len() implies #[trigger] self.series@[i]@.len() <= capacity(
                self.series_size as nat,
            ) by {
                if i < old(self).series@.len() {
                    assert(self.series@[i] == old(self).series@[i]);
                }
            }
        }
        Ok(())
    }

    /// The value at `index` of the series `name`, counted from the newest.
    pub fn get_by_index(&self, name: &str, index: usize) -> (r: Result<T, VariableError>)
        requires
            self.wf(),
        ensures
            match self.series_of(name@) {
                None => r matches Err(VariableError::NotFound(n)) && n@ == name@,
                Some(s) => if index < s.len() {
                    r == Ok::<T, VariableError>(s[index as int])
                } else {
                    r matches Err(VariableError::OutOfBounds(i, n)) && i == index && n@ == name@
                },
            },
    {
        match self.position(name) {
            None => Err(VariableError::NotFound(name.to_owned())),
            Some(p) => {
                let s = &self.series[p];
                proof {
                    assert(self.all_series()[p as int] == s@);
                }
                if index < s.len() {
                    Ok(s[index])
                } else {
                    Err(VariableError::OutOfBounds(index, name.to_owned()))
                }
            },
        }
    }

    /// The oldest value the series `name` still holds.
    pub fn last(&self, name: &str) -> (r: Result<T, VariableError>)
        requires
            self.wf(),
        ensures
            match self.series_of(name@) {
                None => r matches Err(VariableError::NotFound(n)) && n@ == name@,
                Some(s) => if s.len() > 0 {
                    r == Ok::<T, VariableError>(s.last())
                } else {
                    r matches Err(VariableError::Empty(n)) && n@ == name@
                },
            },
    {
        match self.position(name) {
            None => Err(VariableError::NotFound(name.to_owned())),
            Some(p) => {
                let s = &self.series[p];
                proof {
                    assert(self.all_series()[p as int] == s@);
                }
                if s.len() > 0 {
                    Ok(s[s.len() - 1])
                } else {
                    Err(VariableError::Empty(name.to_owned()))
                }
            },
        }
    }

    /// How many values the series `name` holds.
    pub fn len(&self, name: &str) -> (r: Result<usize, VariableError>)
        requires
            self.wf(),
        ensures
            match self.series_of(name@) {
                None => r matches Err(VariableError::NotFound(n)) && n@ == name@,
                Some(s) => r == Ok::<usize, VariableError>(s.len() as usize),
            },
    {
        match self.position(name) {
            None => Err(VariableError::NotFound(name.to_owned())),
            Some(p) => {
                proof {
                    assert(self.all_series()[p as int] == self.series@[p as int]@);
                }
                Ok(self.series[p].len())
            },
        }
    }

    /// The names of the series, in the order they were created.
    pub fn list(&self) -> (r: Vec<String>)
        requires
            self.wf(),
        ensures
            texts(r@) == self.names(),
    {
        let mut out: Vec<String> = Vec::new();
        let mut i: usize = 0;
        while i < self.names.len()
            invariant
                i <= self.names@.len(),
                texts(out@) == self.names().take(i as int),
            decreases self.names@.len() - i,
        {
            let ghost prev = out@;
            let c = self.names[i].clone();
            out.push(c);
            proof {
                assert(out@ == prev.push(c));
                assert(texts(out@) =~= texts(prev).push(c@));
                assert(self.names()[i as int] == self.names@[i as int]@);
                assert(texts(out@) =~= self.names().take(i + 1));
            }
            i = i + 1;
        }
        proof {
            assert(self.names().take(i as int) =~= self.names());
        }
        out
    }
}


/// A copy of the names.
fn copy_names(names: &[String]) -> (r: Vec<String>)
    ensures
        texts(r@) == texts(names@),
{
    let mut out: Vec<String> = Vec::new();
    let mut i: usize = 0;
    while i < names.len()
        invariant
            i <= names@.len(),
            texts(out@) == texts(names@).take(i as int),
        decreases names@.len() - i,
    {
        let ghost prev = out@;
        let c = names[i].clone();
        out.push(c);
        proof {
            assert(texts(out@) =~= texts(prev).push(c@));
            assert(texts(out@) =~= texts(names@).take(i + 1));
        }
        i = i + 1;
    }
    proof {
        assert(texts(names@).take(i as int) =~= texts(names@));
    }
    out
}

impl<T: Copy> Variables<T> {
    /// The names of the scopes, in the order they were first set.
    pub open spec fn scope_names(&self) -> Seq<Seq<char>> {
        self.scopes().map_values(|e: (Seq<char>, Seq<Seq<char>>)| e.0)
    }

    /// The columns of the scope `scope`, where it has been set.
    pub open spec fn scope_of(&self, scope: Seq<char>) -> Option<Seq<Seq<char>>> {
        if self.scope_names().contains(scope) {
            Some(self.scopes()[index_of(self.scope_names(), scope)].1)
        } else {
            None
        }
    }

    /// The columns a scope covers: those set for it, or every series where it has none.
    pub open spec fn scope_columns(&self, scope: Seq<char>) -> Set<Seq<char>> {
        match self.scope_of(scope) {
            Some(columns) => columns.to_set(),
            None => self.names().to_set(),
        }
    }

    /// Where the scope `scope` stands, if it has been set.
    fn scope_position(&self, scope: &str) -> (r: Option<usize>)
        requires
            self.wf(),
        ensures
            match r {
                Some(i) => i < self.scopes@.len() && self.scope_names()[i as int] == scope@ && index_of(
                    self.scope_names(),
                    scope@,
                ) == i && self.scope_names().contains(scope@),
                None => !self.scope_names().contains(scope@),
            },
    {
        let mut i: usize = 0;
        while i < self.scopes.len()
            invariant
                self.wf(),
                i <= self.scopes@.len(),
                forall|k: int| 0 <= k < i ==> self.scope_names()[k] != scope@,
            decreases self.scopes@.len() - i,
        {
            if text_is(self.scopes[i].0.as_str(), scope) {
                proof {
                    let keys = self.scope_names();
                    assert(keys[i as int] == scope@);
                    let j = index_of(keys, scope@);
                    assert(0 <= j < keys.len() && keys[j] == scope@);
                    assert(j == i as int);
                }
                return Some(i);
            }
            i = i + 1;
        }
        None
    }

    /// Sets the columns the scope `name` covers, in place of any set before.
    pub fn scope(&mut self, name: &str, columns: &[String])
        requires
            old(self).wf(),
        ensures
            final(self).wf(),
            final(self).scopes() == if old(self).scope_names().contains(name@) {
                old(self).scopes().update(index_of(old(self).scope_names(), name@), (name@, texts(columns@)))
            } else {
                old(self).scopes().push((name@, texts(columns@)))
            },
            final(self).scope_of(name@) == Some(texts(columns@)),
            forall|other: Seq<char>| other != name@ ==> final(self).scope_of(other) == old(self).scope_of(other),
            final(self).names() == old(self).names(),
            final(self).all_series() == old(self).all_series(),
            final(self).all_buffers() == old(self).all_buffers(),
            final(self).size() == old(self).size(),
            final(self).flush_size() == old(self).flush_size(),
            final(self).storage() == old(self).storage(),
    {
        let copied = copy_names(columns);
        let entry = (name.to_owned(), copied);
        let ghost before = self.scopes();
        match self.scope_position(name) {
            Some(i) => {
                self.scopes.set(i, entry);
                proof {
                    assert(self.scopes() =~= before.update(i as int, (name@, texts(columns@))));
                    assert(self.scope_names() =~= old(self).scope_names().update(i as int, name@));
                    assert(self.scope_names()[i as int] == name@);
                }
            },
            None => {
                self.scopes.push(entry);
                proof {
                    assert(self.scopes() =~= before.push((name@, texts(columns@))));
                    assert(self.scope_names() =~= old(self).scope_names().push(name@));
                    assert(self.scope_names()[self.scope_names().len() - 1] == name@);
                    let keys = self.scope_names();
                    assert forall|x: int, y: int| 0 <= x < keys.len() && 0 <= y < keys.len() && x != y implies keys[x]
                        != keys[y] by {
                        if x < keys.len() - 1 && y < keys.len() - 1 {
                            assert(keys[x] == old(self).scope_names()[x]);
                            assert(keys[y] == old(self).scope_names()[y]);
                        } else if x == keys.len() - 1 {
                            assert(keys[y] == old(self).scope_names()[y]);
                        } else {
                            assert(keys[x] == old(self).scope_names()[x]);
                        }
                    }
                }
            },
        }
        proof {
            let keys = self.scope_names();
            assert(keys.contains(name@));
            assert(keys[index_of(keys, name@)] == name@);
            assert forall|other: Seq<char>| other != name@ implies final(self).scope_of(other) == old(self).scope_of(
                other,
            ) by {
                let ok = old(self).scope_names();
                if ok.contains(other) {
                    let k = index_of(ok, other);
                    assert(keys[k] == other);
                    assert(keys.contains(other));
                    assert(index_of(keys, other) == k);
                }
                if keys.contains(other) {
                    let k = index_of(keys, other);
                    assert(ok[k] == other);
                    assert(ok.contains(other));
                }
            }
        }
    }
}


/// What `update` did once the value was stored in its series.
#[derive(Clone, Copy, Debug, PartialEq, Eq, Structural)]
pub enum Update {
    /// The value is in its series (and buffer); the series now holds this many values.
    Stored(usize),
    /// The value is in its series, which now holds this many values; the scope's buffers
    /// are full and must be written out before the value joins its buffer.
    FlushFirst(usize),
}

/// Whether two lengths are more than one apart.
pub open spec fn apart(a: nat, b: nat) -> bool {
    a > b + 1 || b > a + 1
}

/// The buffered columns among the first `k` series that `columns` covers, each with the
/// length of its buffer, in order.
pub open spec fn rows_upto<T>(names: Seq<Seq<char>>, buffers: Seq<Option<Seq<T>>>, columns: Set<Seq<char>>, k: int) -> Seq<
    (Seq<char>, nat),
>
    decreases k,
{
    if k <= 0 {
        seq![]
    } else {
        let prev = rows_upto(names, buffers, columns, k - 1);
        match buffers[k - 1] {
            Some(b) => if columns.contains(names[k - 1]) {
                prev.push((names[k - 1], b.len()))
            } else {
                prev
            },
            None => prev,
        }
    }
}

/// Whether row `j` lags the first row, or runs ahead of it, by more than one value.
pub open spec fn lagging(rows: Seq<(Seq<char>, nat)>, j: int) -> bool {
    apart(rows[j].1, rows[0].1)
}

/// Whether some row is more than one value away from the first.
pub open spec fn has_gap(rows: Seq<(Seq<char>, nat)>) -> bool {
    exists|j: int| 0 <= j < rows.len() && lagging(rows, j)
}

/// The first row that is more than one value away from the first row.
pub open spec fn first_gap(rows: Seq<(Seq<char>, nat)>) -> int {
    choose|j: int| 0 <= j < rows.len() && lagging(rows, j) && forall|k: int| 0 <= k < j ==> !lagging(rows, k)
}

/// Whether the rows are full: all of one length, and that length reaches `flush_size`.
pub open spec fn flush_due(rows: Seq<(Seq<char>, nat)>, flush_size: nat) -> bool {
    &&& rows.len() > 0
    &&& forall|j: int| 0 <= j < rows.len() ==> (#[trigger] rows[j]).1 == rows[0].1
    &&& rows[0].1 >= flush_size
}

/// The rows of the first `k` series are the start of those of the first `n`.
proof fn lemma_rows_prefix<T>(names: Seq<Seq<char>>, buffers: Seq<Option<Seq<T>>>, columns: Set<Seq<char>>, k: int, n: int)
    requires
        0 <= k <= n,
    ensures
        rows_upto(names, buffers, columns, k).len() <= rows_upto(names, buffers, columns, n).len(),
        forall|j: int| 0 <= j < rows_upto(names, buffers, columns, k).len() ==> #[trigger] rows_upto(names, buffers, columns, n)[j]
            == rows_upto(names, buffers, columns, k)[j],
    decreases n - k,
{
    if k < n {
        lemma_rows_prefix(names, buffers, columns, k, n - 1);
    }
}

/// Whether `list` holds the text `s`.
fn contains_text(list: &Vec<String>, s: &str) -> (r: bool)
    ensures
        r == texts(list@).contains(s@),
{
    let mut i: usize = 0;
    while i < list.len()
        invariant
            i <= list@.len(),
            forall|k: int| 0 <= k < i ==> texts(list@)[k] != s@,
        decreases list@.len() - i,
    {
        if text_is(list[i].as_str(), s) {
            proof {
                assert(texts(list@)[i as int] == s@);
            }
            return true;
        }
        i = i + 1;
    }
    false
}

impl<T: Copy> Variables<T> {
    /// The buffered columns of the scope, each with its buffer's length, in the order the
    /// series were created.
    pub open spec fn buffer_rows(&self, scope: Seq<char>) -> Seq<(Seq<char>, nat)> {
        rows_upto(self.names(), self.all_buffers(), self.scope_columns(scope), self.names().len() as int)
    }

    /// Whether the series at `k` is a column of the scope at `at` (every series where the
    /// scope is not set).
    fn covers(&self, at: Option<usize>, k: usize) -> (r: bool)
        requires
            self.wf(),
            k < self.names@.len(),
            match at {
                Some(i) => i < self.scopes@.len(),
                None => true,
            },
        ensures
            r == match at {
                Some(i) => self.scopes()[i as int].1.contains(self.names()[k as int]),
                None => self.names().contains(self.names()[k as int]),
            },
    {
        match at {
            Some(i) => {
                proof {
                    assert(self.scopes()[i as int].1 == texts(self.scopes@[i as int].1@));
                }
                contains_text(&self.scopes[i].1, self.names[k].as_str())
            },
            None => {
                proof {
                    assert(self.names()[k as int] == self.names()[k as int]);
                }
                true
            },
        }
    }

    /// Checks the buffers of the scope against one another: a column more than one value
    /// away from the first fails; otherwise tells whether they are full.
    fn check_buffers(&self, scope: &str) -> (r: Result<bool, VariableError>)
        requires
            self.wf(),
            self.buffer_rows(scope@).len() > 0,
        ensures
            has_gap(self.buffer_rows(scope@)) ==> (r matches Err(VariableError::MissingValue(c)) && c@
                == self.buffer_rows(scope@)[first_gap(self.buffer_rows(scope@))].0),
            !has_gap(self.buffer_rows(scope@)) ==> r == Ok::<bool, VariableError>(
                flush_due(self.buffer_rows(scope@), self.flush_size()),
            ),
    {
        let at = self.scope_position(scope);
        let ghost names = self.names();
        let ghost buffers = self.all_buffers();
        let ghost columns = self.scope_columns(scope@);
        let ghost n = names.len() as int;
        let ghost rows = self.buffer_rows(scope@);
        let mut first: Option<usize> = None;
        let mut even = true;
        let mut k: usize = 0;
        while k < self.names.len()
            invariant
                self.wf(),
                names == self.names(),
                buffers == self.all_buffers(),
                columns == self.scope_columns(scope@),
                n == names.len(),
                rows == rows_upto(names, buffers, columns, n),
                match at {
                    Some(i) => i < self.scopes@.len() && self.scope_of(scope@) == Some(self.scopes()[i as int].1),
                    None => self.scope_of(scope@) is None,
                },
                k <= n,
                first is None <==> rows_upto(names, buffers, columns, k as int).len() == 0,
                first matches Some(f) ==> f == rows_upto(names, buffers, columns, k as int)[0].1,
                forall|j: int| 0 <= j < rows_upto(names, buffers, columns, k as int).len() ==> !lagging(
                    rows_upto(names, buffers, columns, k as int),
                    j,
                ),
                even <==> forall|j: int| 0 <= j < rows_upto(names, buffers, columns, k as int).len() ==> (
                #[trigger] rows_upto(names, buffers, columns, k as int)[j]).1 == rows_upto(names, buffers, columns, k as int)[0].1,
            decreases n - k,
        {
            let ghost before = rows_upto(names, buffers, columns, k as int);
            let ghost after = rows_upto(names, buffers, columns, k + 1);
            proof {
                assert(buffers[k as int] == match self.buffers@[k as int] {
                    Some(v) => Some(v@),
                    None => None,
                });
            }
            if let Some(b) = &self.buffers[k] {
                proof {
                    assert(buffers[k as int] == Some(b@));
                }
                let covered = self.covers(at, k);
                proof {
                    assert(covered == columns.contains(names[k as int])) by {
                        match at {
                            Some(i) => {
                                assert(self.scopes()[i as int].1.contains(names[k as int]) == self.scopes()[i as int].1.to_set().contains(names[k as int]));
                            },
                            None => {
                                assert(names.contains(names[k as int]));
                            },
                        }
                    }
                }
                if covered {
                    let l = b.len();
                    proof {
                        assert(after == before.push((names[k as int], l as nat)));
                    }
                    match first {
                        None => {
                            first = Some(l);
                        },
                        Some(f) => {
                            let far = if f > l {
                                f - l > 1
                            } else {
                                l - f > 1
                            };
                            if far {
                                proof {
                                    let j = before.len() as int;
                                    assert(lagging(after, j));
                                    lemma_rows_prefix(names, buffers, columns, k + 1, n);
                                    assert(rows[j] == after[j]);
                                    assert(rows[0] == after[0]);
                                    assert(lagging(rows, j));
                                    assert forall|m: int| 0 <= m < j implies !lagging(rows, m) by {
                                        assert(rows[m] == after[m]);
                                        assert(after[m] == before[m]);
                                        assert(!lagging(before, m));
                                    }
                                    assert(has_gap(rows));
                                    let g = first_gap(rows);
                                    assert(0 <= g < rows.len() && lagging(rows, g) && forall|m: int| 0 <= m < g ==> !lagging(rows, m));
                                    if g < j {
                                        assert(!lagging(rows, g));
                                    }
                                    if g > j {
                                        assert(!lagging(rows, j));
                                    }
                                    assert(g == j);
                                    assert(names[k as int] == self.names@[k as int]@);
                                }
                                return Err(VariableError::MissingValue(self.names[k].clone()));
                            }
                            if l != f {
                                even = false;
                            }
                        },
                    }
                    proof {
                        assert forall|j: int| 0 <= j < before.len() implies #[trigger] after[j] == before[j] by {}
                        if before.len() > 0 {
                            assert(after[0] == before[0]);
                        }
                        assert forall|j: int| 0 <= j < after.len() implies !lagging(after, j) by {
                            if j < before.len() {
                                assert(after[j] == before[j]);
                                assert(!lagging(before, j));
                            }
                        }
                        if even {
                            assert forall|j: int| 0 <= j < after.len() implies (#[trigger] after[j]).1 == after[0].1 by {
                                if j < before.len() {
                                    assert(after[j] == before[j]);
                                    assert(before[j].1 == before[0].1);
                                }
                            }
                        } else {
                            if before.len() > 0 && l as nat != before[0].1 {
                                let j = before.len() as int;
                                assert(after[j].1 != after[0].1);
                            } else {
                                let w = choose|j: int| 0 <= j < before.len() && (#[trigger] before[j]).1 != before[0].1;
                                assert(after[w] == before[w]);
                                assert(after[w].1 != after[0].1);
                            }
                        }
                    }
                } else {
                    proof {
                        assert(after == before);
                    }
                }
            } else {
                proof {
                    assert(after == before);
                }
            }
            k = k + 1;
        }
        proof {
            assert(rows == rows_upto(names, buffers, columns, k as int));
            assert(!has_gap(rows));
        }
        match first {
            Some(f) => Ok(even && f >= self.buffers_size),
            None => Ok(false),
        }
    }
}


impl<T: Copy> Variables<T> {
    /// Puts `value` in front of the series at `p`.
    fn push_value(&mut self, p: usize, value: T) -> (r: usize)
        requires
            old(self).wf(),
            p < old(self).names@.len(),
        ensures
            final(self).wf(),
            final(self).all_series() == old(self).all_series().update(
                p as int,
                pushed(old(self).all_series()[p as int], value, old(self).size()),
            ),
            r == pushed(old(self).all_series()[p as int], value, old(self).size()).len(),
            final(self).names() == old(self).names(),
            final(self).all_buffers() == old(self).all_buffers(),
            final(self).scopes() == old(self).scopes(),
            final(self).storage() == old(self).storage(),
            final(self).size() == old(self).size(),
            final(self).flush_size() == old(self).flush_size(),
    {
        let size = self.series_size;
        let ghost before = self.series@[p as int]@;
        let mut s = Vec::new();
        std::mem::swap(&mut s, &mut self.series[p]);
        if s.len() > 0 && s.len() >= size {
            s.pop();
        }
        s.insert(0, value);
        let len = s.len();
        proof {
            assert(s@ =~= pushed(before, value, size as nat));
        }
        self.series.set(p, s);
        proof {
            assert(self.all_series() =~= old(self).all_series().update(p as int, pushed(before, value, size as nat)));
            assert(self.all_buffers() =~= old(self).all_buffers());
            assert forall|i: int| 0 <= i < self.series@.len() implies #[trigger] self.series@[i]@.len() <= capacity(
                self.series_size as nat,
            ) by {
                if i != p {
                    assert(self.series@[i] == old(self).series@[i]);
                }
            }
        }
        len
    }

    /// Appends `value` to the buffer `name`.
    pub fn append_buffer(&mut self, name: &str, value: T) -> (r: Result<(), VariableError>)
        requires
            old(self).wf(),
        ensures
            final(self).wf(),
            match old(self).buffer_of(name@) {
                None => r matches Err(VariableError::BufferNotFound(n)) && n@ == name@ && *final(self) == *old(self),
                Some(b) => {
                    &&& r is Ok
                    &&& final(self).all_buffers() == old(self).all_buffers().update(
                        index_of(old(self).names(), name@),
                        Some(b.push(value)),
                    )
                    &&& final(self).names() == old(self).names()
                    &&& final(self).all_series() == old(self).all_series()
                    &&& final(self).scopes() == old(self).scopes()
                    &&& final(self).storage() == old(self).storage()
                    &&& final(self).size() == old(self).size()
                    &&& final(self).flush_size() == old(self).flush_size()
                },
            },
    {
        match self.position(name) {
            None => Err(VariableError::BufferNotFound(name.to_owned())),
            Some(p) => {
                proof {
                    assert(self.all_buffers()[p as int] == match self.buffers@[p as int] {
                        Some(v) => Some(v@),
                        None => None,
                    });
                }
                if self.buffers[p].is_none() {
                    return Err(VariableError::BufferNotFound(name.to_owned()));
                }
                let mut slot: Option<Vec<T>> = None;
                std::mem::swap(&mut slot, &mut self.buffers[p]);
                let mut b = slot.unwrap();
                let ghost before = b@;
                b.push(value);
                self.buffers.set(p, Some(b));
                proof {
                    assert(self.all_buffers() =~= old(self).all_buffers().update(p as int, Some(before.push(value))));
                    assert(self.all_series() =~= old(self).all_series());
                }
                Ok(())
            },
        }
    }

    /// Stores `value` in front of the series `name`. With storage set, the buffers of the
    /// scope are checked first: a column out of step fails; full buffers must be written
    /// out (`FlushFirst`) before `value` joins its buffer; otherwise it joins it now.
    pub fn update(&mut self, scope: &str, name: &str, value: T) -> (r: Result<Update, VariableError>)
        requires
            old(self).wf(),
            old(self).series_of(name@) is Some && old(self).storage() is Some ==> old(self).buffer_rows(scope@).len() > 0,
        ensures
            final(self).wf(),
            match old(self).series_of(name@) {
                None => r matches Err(VariableError::NotFound(n)) && n@ == name@ && *final(self) == *old(self),
                Some(s) => {
                    let grown = pushed(s, value, old(self).size());
                    let rows = old(self).buffer_rows(scope@);
                    &&& final(self).series_of(name@) == Some(grown)
                    &&& final(self).all_series() == old(self).all_series().update(index_of(old(self).names(), name@), grown)
                    &&& final(self).names() == old(self).names()
                    &&& final(self).scopes() == old(self).scopes()
                    &&& final(self).storage() == old(self).storage()
                    &&& final(self).size() == old(self).size()
                    &&& final(self).flush_size() == old(self).flush_size()
                    &&& if old(self).storage() is None {
                        &&& r == Ok::<Update, VariableError>(Update::Stored(grown.len() as usize))
                        &&& final(self).all_buffers() == old(self).all_buffers()
                    } else if has_gap(rows) {
                        &&& r matches Err(VariableError::MissingValue(c)) && c@ == rows[first_gap(rows)].0
                        &&& final(self).all_buffers() == old(self).all_buffers()
                    } else if flush_due(rows, old(self).flush_size()) {
                        &&& r == Ok::<Update, VariableError>(Update::FlushFirst(grown.len() as usize))
                        &&& final(self).all_buffers() == old(self).all_buffers()
                    } else {
                        match old(self).buffer_of(name@) {
                            None => r matches Err(VariableError::BufferNotFound(n)) && n@ == name@ && final(self).all_buffers() == old(self).all_buffers(),
                            Some(b) => r == Ok::<Update, VariableError>(Update::Stored(grown.len() as usize)) && final(self).all_buffers() == old(self).all_buffers().update(
                                index_of(old(self).names(), name@),
                                Some(b.push(value)),
                            ),
                        }
                    }
                },
            },
    {
        let p = match self.position(name) {
            None => {
                return Err(VariableError::NotFound(name.to_owned()));
            },
            Some(p) => p,
        };
        let len = self.push_value(p, value);
        proof {
            assert(self.names() == old(self).names());
            assert(self.series_of(name@) == Some(self.all_series()[p as int]));
            assert(self.buffer_rows(scope@) == old(self).buffer_rows(scope@)) by {
                assert(self.scope_columns(scope@) == old(self).scope_columns(scope@));
            }
            assert(self.buffer_of(name@) == old(self).buffer_of(name@));
        }
        if self.storage.is_none() {
            return Ok(Update::Stored(len));
        }
        let flush = self.check_buffers(scope)?;
        if flush {
            return Ok(Update::FlushFirst(len));
        }
        self.append_buffer(name, value)?;
        Ok(Update::Stored(len))
    }
}


/// The columns among the first `k` series that `columns` covers and whose buffers hold
/// something, each with its buffer, in order.
pub open spec fn batch_upto<T>(names: Seq<Seq<char>>, buffers: Seq<Option<Seq<T>>>, columns: Set<Seq<char>>, k: int) -> Seq<
    (Seq<char>, Seq<T>),
>
    decreases k,
{
    if k <= 0 {
        seq![]
    } else {
        let prev = batch_upto(names, buffers, columns, k - 1);
        match buffers[k - 1] {
            Some(b) => if columns.contains(names[k - 1]) && b.len() > 0 {
                prev.push((names[k - 1], b))
            } else {
                prev
            },
            None => prev,
        }
    }
}

/// A batch as text and sequences.
pub open spec fn batch_view<T>(batch: Seq<(String, Vec<T>)>) -> Seq<(Seq<char>, Seq<T>)> {
    batch.map_values(|e: (String, Vec<T>)| (e.0@, e.1@))
}

/// The name of the scope used where none has been set.
pub open spec fn default_scope() -> Seq<char> {
    "default"@
}

/// A copy of the values.
fn copy_values<T: Copy>(values: &Vec<T>) -> (r: Vec<T>)
    ensures
        r@ == values@,
{
    let mut out: Vec<T> = Vec::new();
    let mut i: usize = 0;
    while i < values.len()
        invariant
            i <= values@.len(),
            out@ == values@.take(i as int),
        decreases values@.len() - i,
    {
        out.push(values[i]);
        proof {
            assert(out@ =~= values@.take(i + 1));
        }
        i = i + 1;
    }
    proof {
        assert(values@.take(i as int) =~= values@);
    }
    out
}

impl<T: Copy> Variables<T> {
    /// What writing out the scope covers: its columns whose buffers hold something, in
    /// the order the series were created.
    pub open spec fn flush_columns(&self, scope: Seq<char>) -> Seq<(Seq<char>, Seq<T>)> {
        batch_upto(self.names(), self.all_buffers(), self.scope_columns(scope), self.names().len() as int)
    }

    /// The columns to write out for the scope, each with its buffered values; empty where
    /// there is nothing to write.
    pub fn flush_batch(&self, scope: &str) -> (r: Vec<(String, Vec<T>)>)
        requires
            self.wf(),
        ensures
            batch_view(r@) == self.flush_columns(scope@),
    {
        let at = self.scope_position(scope);
        let ghost names = self.names();
        let ghost buffers = self.all_buffers();
        let ghost columns = self.scope_columns(scope@);
        let mut out: Vec<(String, Vec<T>)> = Vec::new();
        let mut k: usize = 0;
        while k < self.names.len()
            invariant
                self.wf(),
                names == self.names(),
                buffers == self.all_buffers(),
                columns == self.scope_columns(scope@),
                match at {
                    Some(i) => i < self.scopes@.len() && self.scope_of(scope@) == Some(self.scopes()[i as int].1),
                    None => self.scope_of(scope@) is None,
                },
                k <= names.len(),
                batch_view(out@) == batch_upto(names, buffers, columns, k as int),
            decreases names.len() - k,
        {
            proof {
                assert(buffers[k as int] == match self.buffers@[k as int] {
                    Some(v) => Some(v@),
                    None => None,
                });
            }
            if let Some(b) = &self.buffers[k] {
                let covered = self.covers(at, k);
                proof {
                    assert(covered == columns.contains(names[k as int])) by {
                        match at {
                            Some(i) => {
                                assert(self.scopes()[i as int].1.contains(names[k as int]) == self.scopes()[i as int].1.to_set().contains(names[k as int]));
                            },
                            None => {
                                assert(names.contains(names[k as int]));
                            },
                        }
                    }
                }
                if covered && b.len() > 0 {
                    let ghost prev = out@;
                    let column = (self.names[k].clone(), copy_values(b));
                    out.push(column);
                    proof {
                        assert(batch_view(out@) =~= batch_view(prev).push((names[k as int], b@)));
                    }
                }
            }
            k = k + 1;
        }
        out
    }

    /// Empties the buffers of the scope's columns, once they have been written out.
    pub fn clean_after_flushing(&mut self, scope: &str)
        requires
            old(self).wf(),
        ensures
            final(self).wf(),
            final(self).all_buffers() == emptied(old(self).names(), old(self).all_buffers(), old(self).scope_columns(scope@)),
            final(self).names() == old(self).names(),
            final(self).all_series() == old(self).all_series(),
            final(self).scopes() == old(self).scopes(),
            final(self).storage() == old(self).storage(),
            final(self).size() == old(self).size(),
            final(self).flush_size() == old(self).flush_size(),
    {
        let at = self.scope_position(scope);
        let ghost names = self.names();
        let ghost buffers = self.all_buffers();
        let ghost columns = self.scope_columns(scope@);
        let ghost target = Seq::new(
            buffers.len(),
            |i: int|
                if buffers[i] is Some && columns.contains(names[i]) {
                    Some(Seq::<T>::empty())
                } else {
                    buffers[i]
                },
        );
        let mut k: usize = 0;
        while k < self.buffers.len()
            invariant
                self.wf(),
                names == self.names(),
                columns == old(self).scope_columns(scope@),
                self.names@ == old(self).names@,
                self.series@ == old(self).series@,
                self.scopes@ == old(self).scopes@,
                self.storage == old(self).storage,
                self.series_size == old(self).series_size,
                self.buffers_size == old(self).buffers_size,
                self.buffers@.len() == buffers.len(),
                match at {
                    Some(i) => i < self.scopes@.len() && old(self).scope_of(scope@) == Some(self.scopes()[i as int].1),
                    None => old(self).scope_of(scope@) is None,
                },
                k <= buffers.len(),
                target.len() == buffers.len(),
                forall|i: int| 0 <= i < buffers.len() ==> #[trigger] target[i] == if buffers[i] is Some && columns.contains(
                    names[i],
                ) {
                    Some(Seq::<T>::empty())
                } else {
                    buffers[i]
                },
                forall|i: int| 0 <= i < k ==> #[trigger] self.all_buffers()[i] == target[i],
                forall|i: int| k <= i < buffers.len() ==> #[trigger] self.all_buffers()[i] == buffers[i],
            decreases buffers.len() - k,
        {
            let covered = self.covers(at, k);
            proof {
                assert(self.scope_of(scope@) == old(self).scope_of(scope@));
                assert(self.scope_columns(scope@) == columns);
                assert(covered == columns.contains(names[k as int])) by {
                    match at {
                        Some(i) => {
                            assert(self.scopes()[i as int].1.contains(names[k as int]) == self.scopes()[i as int].1.to_set().contains(names[k as int]));
                        },
                        None => {
                            assert(names.contains(names[k as int]));
                        },
                    }
                }
                assert(self.all_buffers()[k as int] == buffers[k as int]);
            }
            if covered && self.buffers[k].is_some() {
                let fresh: Vec<T> = Vec::new();
                let ghost before = self.all_buffers();
                self.buffers.set(k, Some(fresh));
                proof {
                    assert(self.all_buffers() =~= before.update(k as int, Some(Seq::<T>::empty())));
                }
            }
            proof {
                assert(target[k as int] == if buffers[k as int] is Some && columns.contains(names[k as int]) {
                    Some(Seq::<T>::empty())
                } else {
                    buffers[k as int]
                });
                assert(self.all_buffers()[k as int] == target[k as int]);
            }
            k = k + 1;
        }
        proof {
            assert(self.all_buffers() =~= target);
            assert(self.all_series() =~= old(self).all_series());
        }
    }

    /// Empties the series `name`.
    pub fn clear(&mut self, name: &str) -> (r: Result<(), VariableError>)
        requires
            old(self).wf(),
        ensures
            final(self).wf(),
            match old(self).series_of(name@) {
                None => r matches Err(VariableError::NotFound(n)) && n@ == name@ && *final(self) == *old(self),
                Some(s) => {
                    &&& r is Ok
                    &&& final(self).all_series() == old(self).all_series().update(
                        index_of(old(self).names(), name@),
                        Seq::<T>::empty(),
                    )
                    &&& final(self).names() == old(self).names()
                    &&& final(self).all_buffers() == old(self).all_buffers()
                    &&& final(self).scopes() == old(self).scopes()
                    &&& final(self).storage() == old(self).storage()
                    &&& final(self).size() == old(self).size()
                    &&& final(self).flush_size() == old(self).flush_size()
                },
            },
    {
        match self.position(name) {
            None => Err(VariableError::NotFound(name.to_owned())),
            Some(p) => {
                let fresh: Vec<T> = Vec::new();
                self.series.set(p, fresh);
                proof {
                    assert(self.all_series() =~= old(self).all_series().update(p as int, Seq::<T>::empty()));
                    assert(self.all_buffers() =~= old(self).all_buffers());
                    assert forall|i: int| 0 <= i < self.series@.len() implies #[trigger] self.series@[i]@.len()
                        <= capacity(self.series_size as nat) by {
                        if i != p {
                            assert(self.series@[i] == old(self).series@[i]);
                        }
                    }
                }
                Ok(())
            },
        }
    }

    /// Drops every series and buffer; the scopes and the storage stay.
    pub fn clear_all(&mut self)
        requires
            old(self).wf(),
        ensures
            final(self).wf(),
            final(self).names() == Seq::<Seq<char>>::empty(),
            final(self).all_series() == Seq::<Seq<T>>::empty(),
            final(self).all_buffers() == Seq::<Option<Seq<T>>>::empty(),
            final(self).scopes() == old(self).scopes(),
            final(self).storage() == old(self).storage(),
            final(self).size() == old(self).size(),
            final(self).flush_size() == old(self).flush_size(),
    {
        self.names = Vec::new();
        self.series = Vec::new();
        self.buffers = Vec::new();
        proof {
            assert(self.names() =~= Seq::<Seq<char>>::empty());
            assert(self.all_series() =~= Seq::<Seq<T>>::empty());
            assert(self.all_buffers() =~= Seq::<Option<Seq<T>>>::empty());
        }
    }

    /// Writes the buffers to the object `name` in `bucket` from now on.
    pub fn use_s3(&mut self, bucket: &str, name: &str)
        requires
            old(self).wf(),
        ensures
            final(self).wf(),
            final(self).storage() == Some((bucket@, name@)),
            final(self).names() == old(self).names(),
            final(self).all_series() == old(self).all_series(),
            final(self).all_buffers() == old(self).all_buffers(),
            final(self).scopes() == old(self).scopes(),
            final(self).size() == old(self).size(),
            final(self).flush_size() == old(self).flush_size(),
    {
        self.storage = Some((bucket.to_owned(), name.to_owned()));
    }

    /// The scopes that writing everything out goes through: the scopes set, or the default
    /// scope where none is.
    pub fn flush_scopes(&self) -> (r: Vec<String>)
        requires
            self.wf(),
        ensures
            texts(r@) == if self.scope_names().len() == 0 {
                seq![default_scope()]
            } else {
                self.scope_names()
            },
    {
        let mut out: Vec<String> = Vec::new();
        let mut i: usize = 0;
        while i < self.scopes.len()
            invariant
                i <= self.scopes@.len(),
                texts(out@) == self.scope_names().take(i as int),
            decreases self.scopes@.len() - i,
        {
            let ghost prev = out@;
            let c = self.scopes[i].0.clone();
            out.push(c);
            proof {
                assert(self.scope_names()[i as int] == self.scopes@[i as int].0@);
                assert(texts(out@) =~= texts(prev).push(c@));
                assert(texts(out@) =~= self.scope_names().take(i + 1));
            }
            i = i + 1;
        }
        proof {
            assert(self.scope_names().take(i as int) =~= self.scope_names());
        }
        if out.len() == 0 {
            out.push("default".to_owned());
            proof {
                assert(texts(out@) =~= seq![default_scope()]);
            }
        }
        out
    }
}


/// Whether `i` is the only place of `c` in `s`.
pub open spec fn only_at(s: Seq<char>, c: char, i: int) -> bool {
    &&& 0 <= i < s.len()
    &&& s[i] == c
    &&& forall|j: int| 0 <= j < s.len() && j != i ==> s[j] != c
}

/// `s` with every `]` at its end taken off.
pub open spec fn trim_closing(s: Seq<char>) -> Seq<char>
    decreases s.len(),
{
    if s.len() > 0 && s.last() == ']' {
        trim_closing(s.drop_last())
    } else {
        s
    }
}

/// The name and the index text of an expression `name[index]`: the text holds exactly one
/// `[`; the name is what stands before it, the index what follows it less any closing `]`.
pub open spec fn expr_parts(s: Seq<char>) -> Option<(Seq<char>, Seq<char>)> {
    if exists|i: int| only_at(s, '[', i) {
        let i = choose|i: int| only_at(s, '[', i);
        Some((s.take(i), trim_closing(s.skip(i + 1))))
    } else {
        None
    }
}

/// Where the only `[` of `s` stands, if it has exactly one.
fn single_bracket(s: &str) -> (r: Option<usize>)
    ensures
        match r {
            Some(i) => only_at(s@, '[', i as int) && expr_parts(s@) == Some(
                (s@.take(i as int), trim_closing(s@.skip(i + 1))),
            ),
            None => expr_parts(s@) is None,
        },
{
    let n = s.unicode_len();
    let mut found: Option<usize> = None;
    let mut i: usize = 0;
    while i < n
        invariant
            n == s@.len(),
            i <= n,
            match found {
                Some(f) => f < i && s@[f as int] == '[' && forall|j: int| 0 <= j < i && j != f ==> s@[j] != '[',
                None => forall|j: int| 0 <= j < i ==> s@[j] != '[',
            },
        decreases n - i,
    {
        if s.get_char(i) == '[' {
            match found {
                Some(f) => {
                    proof {
                        assert forall|k: int| !only_at(s@, '[', k) by {
                            if only_at(s@, '[', k) {
                                if k != f as int {
                                    assert(s@[f as int] == '[');
                                } else {
                                    assert(s@[i as int] == '[');
                                }
                            }
                        }
                    }
                    return None;
                },
                None => {
                    found = Some(i);
                },
            }
        }
        i = i + 1;
    }
    match found {
        Some(f) => {
            proof {
                assert(only_at(s@, '[', f as int));
                let k = choose|k: int| only_at(s@, '[', k);
                assert(k == f as int);
            }
            Some(f)
        },
        None => {
            proof {
                assert forall|k: int| !only_at(s@, '[', k) by {}
            }
            None
        },
    }
}

/// How much of `s` is left once every `]` at its end is taken off.
fn trimmed_len(s: &str) -> (r: usize)
    ensures
        r <= s@.len(),
        trim_closing(s@) == s@.take(r as int),
{
    let mut end = s.unicode_len();
    proof {
        assert(s@.take(end as int) =~= s@);
    }
    while end > 0 && s.get_char(end - 1) == ']'
        invariant
            end <= s@.len(),
            trim_closing(s@) == trim_closing(s@.take(end as int)),
        decreases end,
    {
        proof {
            let t = s@.take(end as int);
            assert(t.last() == ']');
            assert(t.drop_last() =~= s@.take(end - 1));
        }
        end = end - 1;
    }
    proof {
        let t = s@.take(end as int);
        assert(!(t.len() > 0 && t.last() == ']'));
    }
    end
}

impl<T: Copy> Variables<T> {
    /// The value an expression `name[index]` names: the value at `index` of the series
    /// `name`, counted from the newest.
    pub fn get_by_expr(&self, expr: &str) -> (r: Result<T, VariableError>)
        requires
            self.wf(),
        ensures
            match expr_parts(expr@) {
                None => r matches Err(VariableError::InvalidExpression(e)) && e@ == expr@,
                Some((name, digits)) => match crate::text::parse_integer(digits, false, 0, usize::MAX as int) {
                    None => r matches Err(VariableError::InvalidIndex(t)) && t@ == digits,
                    Some(index) => match self.series_of(name) {
                        None => r matches Err(VariableError::NotFound(n)) && n@ == name,
                        Some(s) => if index < s.len() {
                            r == Ok::<T, VariableError>(s[index])
                        } else {
                            r matches Err(VariableError::OutOfBounds(i, n)) && i == index && n@ == name
                        },
                    },
                },
            },
    {
        let at = match single_bracket(expr) {
            None => {
                return Err(VariableError::InvalidExpression(expr.to_owned()));
            },
            Some(i) => i,
        };
        let n = expr.unicode_len();
        let name = expr.substring_char(0, at);
        let rest = expr.substring_char(at + 1, n);
        let end = trimmed_len(rest);
        let digits = rest.substring_char(0, end);
        proof {
            assert(name@ =~= expr@.take(at as int));
            assert(rest@ =~= expr@.skip(at + 1));
            assert(digits@ =~= rest@.take(end as int));
        }
        match crate::text::parse_usize(digits) {
            None => Err(VariableError::InvalidIndex(digits.to_owned())),
            Some(index) => self.get_by_index(name, index),
        }
    }
}


/// The key of a written file: `{folder}/{name}-{scope}-{timestamp}.parquet`.
pub open spec fn parquet_key(folder: Seq<char>, name: Seq<char>, scope: Seq<char>, timestamp_millis: int) -> Seq<char> {
    folder + "/"@ + name + "-"@ + scope + "-"@ + int_text(timestamp_millis) + ".parquet"@
}

/// The folder of the files written on the day of `secs`: `investing/` and the UTC date.
pub open spec fn dated_folder_text(secs: i64) -> Seq<char> {
    "investing/"@ + calendar_date(secs)
}

/// The folder of the files written on the day of the instant `timestamp_millis`
/// (milliseconds since the epoch, whole seconds taken toward zero); `None` where the
/// instant is out of the calendar's range, which every instant within about 253 500 years
/// of the epoch is inside.
pub fn dated_folder(timestamp_millis: i64) -> (r: Option<String>)
    ensures
        r matches Some(f) ==> f@ == dated_folder_text(trunc_div(timestamp_millis as int, 1000) as i64),
        -8_000_000_000_000_000 <= timestamp_millis <= 8_000_000_000_000_000 ==> r is Some,
{
    let secs = timestamp_millis / 1000;
    match utc_date_text(secs) {
        None => None,
        Some(date) => {
            let mut out = String::new();
            out.append("investing/");
            out.append(date.as_str());
            proof {
                assert(out@ =~= dated_folder_text(secs));
            }
            Some(out)
        },
    }
}

impl<T: Copy> Variables<T> {
    /// The key of the file written for `scope` at `timestamp_millis` into `folder`.
    pub fn name_of_parquet(&self, folder: &str, scope: &str, timestamp_millis: i64) -> (r: Result<String, VariableError>)
        ensures
            match self.storage() {
                None => r matches Err(VariableError::NameNotSet),
                Some((bucket, name)) => r matches Ok(k) && k@ == parquet_key(folder@, name, scope@, timestamp_millis as int),
            },
    {
        match &self.storage {
            None => Err(VariableError::NameNotSet),
            Some((_, name)) => {
                let stamp = format_i64(timestamp_millis);
                let mut out = String::new();
                out.append(folder);
                out.append("/");
                out.append(name.as_str());
                out.append("-");
                out.append(scope);
                out.append("-");
                out.append(stamp.as_str());
                out.append(".parquet");
                proof {
                    assert(out@ =~= parquet_key(folder@, name@, scope@, timestamp_millis as int));
                }
                Ok(out)
            },
        }
    }
}

/// Whether `t` stands somewhere in `s`.
pub open spec fn holds_text(s: Seq<char>, t: Seq<char>) -> bool {
    exists|i: int| 0 <= i <= s.len() - t.len() && #[trigger] s.subrange(i, i + t.len()) == t
}

/// Whether `i` is the last place of `c` in `s`.
pub open spec fn last_at(s: Seq<char>, c: char, i: int) -> bool {
    &&& 0 <= i < s.len()
    &&& s[i] == c
    &&& forall|j: int| i < j < s.len() ==> s[j] != c
}

/// What follows the last `c` in `s`; all of `s` where it has none.
pub open spec fn after_last(s: Seq<char>, c: char) -> Seq<char> {
    if s.contains(c) {
        s.skip((choose|i: int| last_at(s, c, i)) + 1)
    } else {
        s
    }
}

/// Whether `i` is the first place of `c` in `s`.
pub open spec fn first_at(s: Seq<char>, c: char, i: int) -> bool {
    &&& 0 <= i < s.len()
    &&& s[i] == c
    &&& forall|j: int| 0 <= j < i ==> s[j] != c
}

/// What stands before the first `c` in `s`; all of `s` where it has none.
pub open spec fn before_first(s: Seq<char>, c: char) -> Seq<char> {
    if s.contains(c) {
        s.take(choose|i: int| first_at(s, c, i))
    } else {
        s
    }
}

/// The timestamp a stored key names for `scope`: the key has a folder, its file name holds
/// the scope, and the text after the file name's last `-` and before the next `.` is an
/// `i64`.
pub open spec fn key_stamp(key: Seq<char>, scope: Seq<char>) -> Option<int> {
    if key.contains('/') {
        let file = after_last(key, '/');
        if holds_text(file, scope) {
            parse_integer(before_first(after_last(file, '-'), '.'), true, i64::MIN as int, i64::MAX as int)
        } else {
            None
        }
    } else {
        None
    }
}

/// The timestamps the keys name for `scope`, in order; keys that are missing or name none
/// are passed over.
pub open spec fn key_stamps(keys: Seq<Option<Seq<char>>>, scope: Seq<char>) -> Seq<i64>
    decreases keys.len(),
{
    if keys.len() == 0 {
        seq![]
    } else {
        let prev = key_stamps(keys.drop_last(), scope);
        match keys.last() {
            Some(k) => match key_stamp(k, scope) {
                Some(v) => prev.push(v as i64),
                None => prev,
            },
            None => prev,
        }
    }
}

/// The keys as text.
pub open spec fn key_texts(keys: Seq<Option<String>>) -> Seq<Option<Seq<char>>> {
    keys.map_values(|k: Option<String>| match k {
        Some(t) => Some(t@),
        None => None,
    })
}

/// Where the last `c` of `s` stands, if it has one.
fn last_place(s: &str, c: char) -> (r: Option<usize>)
    ensures
        match r {
            Some(i) => last_at(s@, c, i as int) && s@.contains(c) && after_last(s@, c) == s@.skip(i + 1),
            None => !s@.contains(c) && after_last(s@, c) == s@,
        },
{
    let mut i = s.unicode_len();
    while i > 0
        invariant
            i <= s@.len(),
            forall|j: int| i <= j < s@.len() ==> s@[j] != c,
        decreases i,
    {
        if s.get_char(i - 1) == c {
            proof {
                let k = (i - 1) as int;
                assert(last_at(s@, c, k));
                assert(s@.contains(c));
                let w = choose|w: int| last_at(s@, c, w);
                if w < k {
                    assert(s@[k] != c);
                }
                if w > k {
                    assert(s@[w] != c);
                }
                assert(w == k);
            }
            return Some(i - 1);
        }
        i = i - 1;
    }
    None
}

/// Where the first `c` of `s` stands, if it has one.
fn first_place(s: &str, c: char) -> (r: Option<usize>)
    ensures
        match r {
            Some(i) => first_at(s@, c, i as int) && before_first(s@, c) == s@.take(i as int),
            None => !s@.contains(c) && before_first(s@, c) == s@,
        },
{
    let n = s.unicode_len();
    let mut i: usize = 0;
    while i < n
        invariant
            n == s@.len(),
            i <= n,
            forall|j: int| 0 <= j < i ==> s@[j] != c,
        decreases n - i,
    {
        if s.get_char(i) == c {
            proof {
                let k = i as int;
                assert(first_at(s@, c, k));
                assert(s@.contains(c));
                let w = choose|w: int| first_at(s@, c, w);
                if w < k {
                    assert(s@[w] != c);
                }
                if w > k {
                    assert(s@[k] != c);
                }
                assert(w == k);
            }
            return Some(i);
        }
        i = i + 1;
    }
    None
}

/// Whether `t` stands somewhere in `s`.
fn holds(s: &str, t: &str) -> (r: bool)
    ensures
        r == holds_text(s@, t@),
{
    let n = s.unicode_len();
    let m = t.unicode_len();
    if m > n {
        proof {
            assert forall|i: int| !(0 <= i <= s@.len() - t@.len() && #[trigger] s@.subrange(i, i + t@.len()) == t@) by {}
        }
        return false;
    }
    let mut i: usize = 0;
    while i <= n - m
        invariant
            n == s@.len(),
            m == t@.len(),
            m <= n,
            i <= n - m + 1,
            forall|k: int| 0 <= k < i ==> #[trigger] s@.subrange(k, k + m) != t@,
        decreases n - m + 1 - i,
    {
        let piece = s.substring_char(i, i + m);
        if text_is(piece, t) {
            return true;
        }
        if i == n - m {
            return false;
        }
        i = i + 1;
    }
    false
}

/// The timestamp a stored key names for `scope`, if it names one.
fn stamp_of(key: &str, scope: &str) -> (r: Option<i64>)
    ensures
        match key_stamp(key@, scope@) {
            Some(v) => r == Some(v as i64),
            None => r is None,
        },
{
    let key_len = key.unicode_len();
    let slash = match last_place(key, '/') {
        None => {
            return None;
        },
        Some(i) => i,
    };
    let file = key.substring_char(slash + 1, key_len);
    proof {
        assert(file@ =~= key@.skip(slash + 1));
    }
    if !holds(file, scope) {
        return None;
    }
    let file_len = file.unicode_len();
    let tail = match last_place(file, '-') {
        None => file,
        Some(d) => file.substring_char(d + 1, file_len),
    };
    proof {
        assert(tail@ =~= after_last(file@, '-'));
    }
    let stem = match first_place(tail, '.') {
        None => tail,
        Some(p) => tail.substring_char(0, p),
    };
    proof {
        assert(stem@ =~= before_first(tail@, '.'));
    }
    parse_i64(stem)
}

/// The timestamps of the files of `scope` among the keys a folder listing gave (`None`
/// where the folder is gone): the folder must exist and hold at least one.
pub fn timestamps_in_listing(contents: &Option<Vec<Option<String>>>, scope: &str) -> (r: Result<Vec<i64>, VariableError>)
    ensures
        match *contents {
            None => r matches Err(VariableError::FolderEmpty),
            Some(keys) => if key_stamps(key_texts(keys@), scope@).len() == 0 {
                r matches Err(VariableError::NoTimestamps(s)) && s@ == scope@
            } else {
                r matches Ok(v) && v@ == key_stamps(key_texts(keys@), scope@)
            },
        },
{
    let keys = match contents {
        None => {
            return Err(VariableError::FolderEmpty);
        },
        Some(keys) => keys,
    };
    let ghost texts = key_texts(keys@);
    let mut out: Vec<i64> = Vec::new();
    let mut i: usize = 0;
    while i < keys.len()
        invariant
            texts == key_texts(keys@),
            i <= keys@.len(),
            out@ == key_stamps(texts.take(i as int), scope@),
        decreases keys@.len() - i,
    {
        proof {
            assert(texts.take(i + 1).drop_last() =~= texts.take(i as int));
            assert(texts.take(i + 1).last() == texts[i as int]);
        }
        match &keys[i] {
            None => {},
            Some(k) => {
                match stamp_of(k.as_str(), scope) {
                    None => {},
                    Some(v) => {
                        out.push(v);
                    },
                }
            },
        }
        i = i + 1;
    }
    proof {
        assert(texts.take(i as int) =~= texts);
    }
    if out.len() == 0 {
        Err(VariableError::NoTimestamps(scope.to_owned()))
    } else {
        Ok(out)
    }
}


impl<T: Copy> Variables<T> {
    /// Whether storage has been set.
    pub fn has_storage(&self) -> (r: bool)
        ensures
            r == self.storage() is Some,
    {
        self.storage.is_some()
    }

    /// Whether the scope has a buffered column, which `update` needs once storage is set.
    pub fn has_buffered_column(&self, scope: &str) -> (r: bool)
        requires
            self.wf(),
        ensures
            r == (self.buffer_rows(scope@).len() > 0),
    {
        let at = self.scope_position(scope);
        let ghost names = self.names();
        let ghost buffers = self.all_buffers();
        let ghost columns = self.scope_columns(scope@);
        let mut k: usize = 0;
        while k < self.names.len()
            invariant
                self.wf(),
                names == self.names(),
                buffers == self.all_buffers(),
                columns == self.scope_columns(scope@),
                match at {
                    Some(i) => i < self.scopes@.len() && self.scope_of(scope@) == Some(self.scopes()[i as int].1),
                    None => self.scope_of(scope@) is None,
                },
                k <= names.len(),
                rows_upto(names, buffers, columns, k as int).len() == 0,
            decreases names.len() - k,
        {
            proof {
                assert(buffers[k as int] == match self.buffers@[k as int] {
                    Some(v) => Some(v@),
                    None => None,
                });
            }
            if self.buffers[k].is_some() {
                let covered = self.covers(at, k);
                proof {
                    assert(covered == columns.contains(names[k as int])) by {
                        match at {
                            Some(i) => {
                                assert(self.scopes()[i as int].1.contains(names[k as int]) == self.scopes()[i as int].1.to_set().contains(names[k as int]));
                            },
                            None => {
                                assert(names.contains(names[k as int]));
                            },
                        }
                    }
                }
                if covered {
                    proof {
                        assert(rows_upto(names, buffers, columns, k + 1).len() == 1);
                        lemma_rows_prefix(names, buffers, columns, k + 1, names.len() as int);
                    }
                    return true;
                }
            }
            k = k + 1;
        }
        false
    }
}

/// A value that comes in becomes the newest of its series; the values already there move one
/// place back, and the series grows by one until it reaches its capacity.
pub proof fn lemma_pushed<T>(s: Seq<T>, v: T, size: nat)
    requires
        s.len() <= capacity(size),
    ensures
        pushed(s, v, size)[0] == v,
        pushed(s, v, size).len() == if s.len() < capacity(size) {
            s.len() + 1
        } else {
            capacity(size)
        },
        pushed(s, v, size).len() <= capacity(size),
        forall|k: int| 1 <= k < pushed(s, v, size).len() ==> #[trigger] pushed(s, v, size)[k] == s[k - 1],
{
    let p = pushed(s, v, size);
    assert forall|k: int| 1 <= k < p.len() implies #[trigger] p[k] == s[k - 1] by {
        if s.len() > 0 && s.len() >= size {
            assert(p[k] == s.drop_last()[k - 1]);
        } else {
            assert(p[k] == s[k - 1]);
        }
    }
}

/// The expression `name[index]` names the value at `index` of the series `name`, for a name
/// without `[`: it splits into the name and the index's digits, which read back as the index.
pub proof fn lemma_expr_reads_index(name: Seq<char>, index: usize)
    requires
        !name.contains('['),
    ensures
        expr_parts(name + seq!['['] + int_text(index as int) + seq![']']) == Some((name, int_text(index as int))),
        parse_integer(int_text(index as int), false, 0, usize::MAX as int) == Some(index as int),
{
    let digits = int_text(index as int);
    lemma_digits_of(index as nat);
    lemma_int_text_round_trip(index as int, 0, usize::MAX as int);
    let s = name + seq!['['] + digits + seq![']'];
    let i = name.len() as int;
    assert(s[i] == '[');
    assert forall|j: int| 0 <= j < s.len() && j != i implies s[j] != '[' by {
        if j < i {
            assert(s[j] == name[j]);
            assert(name.contains(name[j]));
        } else if j < i + 1 + digits.len() {
            assert(s[j] == digits[j - i - 1]);
            assert(is_digit(digits[j - i - 1]));
        } else {
            assert(s[j] == ']');
        }
    }
    assert(only_at(s, '[', i));
    let k = choose|k: int| only_at(s, '[', k);
    assert(k == i);
    assert(s.take(i) =~= name);
    let rest = s.skip(i + 1);
    assert(rest =~= digits + seq![']']);
    assert(rest.drop_last() =~= digits);
    assert(is_digit(digits.last()));
    assert(trim_closing(rest) == trim_closing(digits));
    assert(trim_closing(digits) == digits);
}

/// A written file's key, listed back for its scope, gives the timestamp it was written at:
/// for an object name and a scope without `/`, and a timestamp not before the epoch.
pub proof fn lemma_written_key_lists_back(folder: Seq<char>, name: Seq<char>, scope: Seq<char>, timestamp_millis: i64)
    requires
        !name.contains('/'),
        !scope.contains('/'),
        timestamp_millis >= 0,
    ensures
        key_stamp(parquet_key(folder, name, scope, timestamp_millis as int), scope) == Some(timestamp_millis as int),
{
    reveal_strlit("/");
    reveal_strlit("-");
    reveal_strlit(".parquet");
    let digits = int_text(timestamp_millis as int);
    lemma_digits_of(timestamp_millis as nat);
    lemma_int_text_round_trip(timestamp_millis as int, i64::MIN as int, i64::MAX as int);
    let ext = ".parquet"@;
    assert(ext =~= seq!['.', 'p', 'a', 'r', 'q', 'u', 'e', 't']);
    let stamp = digits + ext;
    let file = name + seq!['-'] + scope + seq!['-'] + stamp;
    let key = folder + seq!['/'] + file;
    assert(parquet_key(folder, name, scope, timestamp_millis as int) =~= key);
    // The file name follows the last `/`.
    let f = folder.len() as int;
    assert(key[f] == '/');
    assert forall|j: int| f < j < key.len() implies key[j] != '/' by {
        let m = j - f - 1;
        assert(key[j] == file[m]);
        if m < name.len() {
            assert(file[m] == name[m]);
            assert(name.contains(name[m]));
        } else if m == name.len() {
        } else if m < name.len() + 1 + scope.len() {
            assert(file[m] == scope[m - name.len() - 1]);
            assert(scope.contains(scope[m - name.len() - 1]));
        } else if m == name.len() + 1 + scope.len() {
        } else {
            let q = m - name.len() - 2 - scope.len();
            assert(file[m] == stamp[q]);
            if q < digits.len() {
                assert(is_digit(digits[q]));
            }
        }
    }
    assert(last_at(key, '/', f));
    assert(key.contains('/'));
    let w = choose|w: int| last_at(key, '/', w);
    if w < f {
        assert(key[f] != '/');
    }
    if w > f {
        assert(key[w] != '/');
    }
    assert(after_last(key, '/') =~= file);
    // The file name holds the scope.
    let at = name.len() + 1;
    assert(file.subrange(at as int, (at + scope.len()) as int) =~= scope);
    assert(holds_text(file, scope));
    // The stamp follows the last `-` of the file name.
    let d = name.len() + 1 + scope.len();
    assert(file[d as int] == '-');
    assert forall|j: int| d < j < file.len() implies file[j] != '-' by {
        let q = j - d - 1;
        assert(file[j] == stamp[q]);
        if q < digits.len() {
            assert(is_digit(digits[q]));
        }
    }
    assert(last_at(file, '-', d as int));
    assert(file.contains('-'));
    let w2 = choose|w: int| last_at(file, '-', w);
    if w2 < d {
        assert(file[d as int] != '-');
    }
    if w2 > d {
        assert(file[w2] != '-');
    }
    assert(after_last(file, '-') =~= stamp);
    // The digits stand before the first `.` of the stamp.
    let e = digits.len() as int;
    assert(stamp[e] == '.');
    assert forall|j: int| 0 <= j < e implies stamp[j] != '.' by {
        assert(stamp[j] == digits[j]);
        assert(is_digit(digits[j]));
    }
    assert(first_at(stamp, '.', e));
    assert(stamp.contains('.'));
    let w3 = choose|w: int| first_at(stamp, '.', w);
    if w3 < e {
        assert(stamp[w3] != '.');
    }
    if w3 > e {
        assert(stamp[e] != '.');
    }
    assert(before_first(stamp, '.') =~= digits);
}


/// The buffers once the columns `columns` have been written out and emptied.
pub open spec fn emptied<T>(names: Seq<Seq<char>>, buffers: Seq<Option<Seq<T>>>, columns: Set<Seq<char>>) -> Seq<
    Option<Seq<T>>,
> {
    Seq::new(
        buffers.len(),
        |i: int|
            if buffers[i] is Some && columns.contains(names[i]) {
                Some(Seq::<T>::empty())
            } else {
                buffers[i]
            },
    )
}

/// Emptied columns leave nothing to write.
proof fn lemma_emptied_batch<T>(names: Seq<Seq<char>>, buffers: Seq<Option<Seq<T>>>, columns: Set<Seq<char>>, k: int)
    requires
        0 <= k <= buffers.len(),
    ensures
        batch_upto(names, emptied(names, buffers, columns), columns, k) == Seq::<(Seq<char>, Seq<T>)>::empty(),
    decreases k,
{
    if k > 0 {
        lemma_emptied_batch(names, buffers, columns, k - 1);
    }
}

/// Once a scope has been written out and its buffers emptied, writing it out again has
/// nothing to write.
pub proof fn lemma_nothing_left_to_flush<T: Copy>(before: Variables<T>, after: Variables<T>, scope: Seq<char>)
    requires
        after.names() == before.names(),
        after.scopes() == before.scopes(),
        before.wf(),
        after.all_buffers() == emptied(before.names(), before.all_buffers(), before.scope_columns(scope)),
    ensures
        after.flush_columns(scope) == Seq::<(Seq<char>, Seq<T>)>::empty(),
{
    assert(after.scope_columns(scope) == before.scope_columns(scope));
    lemma_emptied_batch(before.names(), before.all_buffers(), before.scope_columns(scope), before.names().len() as int);
}

} // verus!
