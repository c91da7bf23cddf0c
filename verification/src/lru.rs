//! A bounded least-recently-used cache.
//!
//! Entries live in a vector of nodes that are chained from the most recently used entry
//! (`first`) to the least recently used one (`last`); a hash map finds the node of a key.
//! The abstract view of a cache is the sequence of its entries, most recently used first.
use std::collections::HashMap;
use vstd::prelude::*;

verus! {

broadcast use vstd::std_specs::hash::group_hash_axioms;

// ---------------------------------------------------------------------------
// The abstract model: a sequence of (key, value) pairs, most recent first.
// ---------------------------------------------------------------------------

/// The keys of a sequence of entries, in the same order.
pub open spec fn keys_of<K, V>(s: Seq<(K, V)>) -> Seq<K> {
    s.map_values(|e: (K, V)| e.0)
}

/// Where key `k` stands in `s` (meaningful when `k` occurs in `s`).
pub open spec fn position_of<K, V>(s: Seq<(K, V)>, k: K) -> int {
    keys_of(s).index_of(k)
}

/// `s` with its entry at position `p` moved to the front.
pub open spec fn touched<K, V>(s: Seq<(K, V)>, p: int) -> Seq<(K, V)> {
    seq![s[p]] + s.remove(p)
}

/// The entries after a lookup of `k`: a hit moves the entry of `k` to the front.
pub open spec fn after_get<K, V>(s: Seq<(K, V)>, k: K) -> Seq<(K, V)> {
    if keys_of(s).contains(k) {
        touched(s, position_of(s, k))
    } else {
        s
    }
}

/// The entries after storing `v` under `k` in a cache that holds at most `cap` entries.
///
/// A known key takes the new value and moves to the front. A new key goes to the front;
/// when the cache is full the least recently used entry (the last one) leaves first.
/// A cache of capacity zero stores nothing.
pub open spec fn after_put<K, V>(s: Seq<(K, V)>, cap: nat, k: K, v: V) -> Seq<(K, V)> {
    if keys_of(s).contains(k) {
        seq![(k, v)] + s.remove(position_of(s, k))
    } else if cap == 0 {
        s
    } else if s.len() >= cap {
        seq![(k, v)] + s.drop_last()
    } else {
        seq![(k, v)] + s
    }
}

/// Whether a put of `k` into `s` under capacity `cap` is accepted.
pub open spec fn put_accepted<K, V>(s: Seq<(K, V)>, cap: nat, k: K) -> bool {
    keys_of(s).contains(k) || cap > 0
}

/// In a sequence whose keys are distinct, the position of the key at `p` is `p`.
pub proof fn lemma_position_of<K, V>(s: Seq<(K, V)>, p: int)
    requires
        keys_of(s).no_duplicates(),
        0 <= p < s.len(),
    ensures
        keys_of(s).contains(s[p].0),
        position_of(s, s[p].0) == p,
{
    let ks = keys_of(s);
    assert(ks[p] == s[p].0);
    let q = position_of(s, s[p].0);
    assert(0 <= q < ks.len() && ks[q] == s[p].0);
}

/// Reading right after a write gives back what was written: after a put of `v` under `k`
/// into a cache of positive capacity, `k` is the most recently used entry and holds `v`,
/// so a lookup of `k` hits, returns `v` and leaves the entries as they are.
pub proof fn lemma_get_after_put<K, V>(s: Seq<(K, V)>, cap: nat, k: K, v: V)
    requires
        keys_of(s).no_duplicates(),
        s.len() <= cap,
        cap > 0,
    ensures
        keys_of(after_put(s, cap, k, v)).contains(k),
        position_of(after_put(s, cap, k, v), k) == 0,
        after_put(s, cap, k, v)[0] == (k, v),
        after_get(after_put(s, cap, k, v), k) == after_put(s, cap, k, v),
{
    let t = after_put(s, cap, k, v);
    lemma_put_keeps_keys_distinct(s, cap, k, v);
    assert(t[0] == (k, v));
    lemma_position_of(t, 0);
    assert(touched(t, 0) =~= t);
}

/// A put never lets the cache grow past its capacity, and keys stay distinct.
pub proof fn lemma_put_keeps_keys_distinct<K, V>(s: Seq<(K, V)>, cap: nat, k: K, v: V)
    requires
        keys_of(s).no_duplicates(),
        s.len() <= cap,
    ensures
        keys_of(after_put(s, cap, k, v)).no_duplicates(),
        after_put(s, cap, k, v).len() <= cap,
{
    let t = after_put(s, cap, k, v);
    let ks = keys_of(s);
    let kt = keys_of(t);
    if ks.contains(k) {
        let p = position_of(s, k);
        assert(0 <= p < ks.len() && ks[p] == k);
        assert forall|a: int, b: int| 0 <= a < kt.len() && 0 <= b < kt.len() && a != b implies kt[a] != kt[b] by {
            let oa = if a == 0 { p } else if a - 1 < p { a - 1 } else { a };
            let ob = if b == 0 { p } else if b - 1 < p { b - 1 } else { b };
            assert(kt[a] == ks[oa]);
            assert(kt[b] == ks[ob]);
        }
    } else if cap == 0 {
    } else if s.len() >= cap {
        assert forall|a: int, b: int| 0 <= a < kt.len() && 0 <= b < kt.len() && a != b implies kt[a] != kt[b] by {
            if a == 0 {
                assert(kt[b] == ks[b - 1]);
            } else if b == 0 {
                assert(kt[a] == ks[a - 1]);
            } else {
                assert(kt[a] == ks[a - 1]);
                assert(kt[b] == ks[b - 1]);
            }
        }
    } else {
        assert forall|a: int, b: int| 0 <= a < kt.len() && 0 <= b < kt.len() && a != b implies kt[a] != kt[b] by {
            if a == 0 {
                assert(kt[b] == ks[b - 1]);
            } else if b == 0 {
                assert(kt[a] == ks[a - 1]);
            } else {
                assert(kt[a] == ks[a - 1]);
                assert(kt[b] == ks[b - 1]);
            }
        }
    }
}

/// When a new key arrives at a full cache, exactly the least recently used entry leaves:
/// its key is gone and every other entry stays, one place further back.
pub proof fn lemma_put_evicts_least_recent<K, V>(s: Seq<(K, V)>, cap: nat, k: K, v: V)
    requires
        keys_of(s).no_duplicates(),
        s.len() == cap,
        cap > 0,
        !keys_of(s).contains(k),
    ensures
        !keys_of(after_put(s, cap, k, v)).contains(s.last().0),
        forall|i: int| 0 <= i < s.len() - 1 ==> after_put(s, cap, k, v)[i + 1] == #[trigger] s[i],
        after_put(s, cap, k, v).len() == cap,
{
    let t = after_put(s, cap, k, v);
    let ks = keys_of(s);
    let last = s.last().0;
    assert(ks[s.len() - 1] == last);
    if keys_of(t).contains(last) {
        let i = choose|i: int| 0 <= i < keys_of(t).len() && keys_of(t)[i] == last;
        if i == 0 {
            assert(ks.contains(k));
        } else {
            assert(keys_of(t)[i] == ks[i - 1]);
        }
    }
}

/// A put of a new key into a cache of capacity zero changes nothing.
pub proof fn lemma_zero_capacity_refuses<K, V>(s: Seq<(K, V)>, k: K, v: V)
    requires
        !keys_of(s).contains(k),
    ensures
        after_put(s, 0, k, v) == s,
        !put_accepted(s, 0, k),
{
}

/// A lookup only reorders: the same entries stay, none is added, changed or dropped.
pub proof fn lemma_get_keeps_entries<K, V>(s: Seq<(K, V)>, k: K)
    ensures
        after_get(s, k).len() == s.len(),
        after_get(s, k).to_multiset() == s.to_multiset(),
{
    if keys_of(s).contains(k) {
        let p = position_of(s, k);
        assert(0 <= p < s.len());
        let r = s.remove(p);
        vstd::seq_lib::lemma_multiset_commutative(seq![s[p]], r);
        assert(s =~= s.subrange(0, p) + seq![s[p]] + s.subrange(p + 1, s.len() as int));
        assert(r =~= s.subrange(0, p) + s.subrange(p + 1, s.len() as int));
        vstd::seq_lib::lemma_multiset_commutative(s.subrange(0, p), s.subrange(p + 1, s.len() as int));
        vstd::seq_lib::lemma_multiset_commutative(s.subrange(0, p) + seq![s[p]], s.subrange(p + 1, s.len() as int));
        vstd::seq_lib::lemma_multiset_commutative(s.subrange(0, p), seq![s[p]]);
    }
}

// ---------------------------------------------------------------------------
// Notification hooks.
// ---------------------------------------------------------------------------

/// Something the cache notifies with a key and a value.
pub trait Hook<K, V>: Send + Sync {
    fn call(&self, key: K, value: V);
}

/// A closure used as a hook.
#[verifier::reject_recursive_types(K)]
#[verifier::reject_recursive_types(V)]
struct FnHook<K, V, F: Fn(K, V)> {
    f: F,
    marker: core::marker::PhantomData<(K, V)>,
}

impl<K, V, F: Fn(K, V)> FnHook<K, V, F> {
    #[verifier::type_invariant]
    spec fn callable(self) -> bool {
        forall|k: K, v: V| call_requires(self.f, (k, v))
    }
}

impl<K: Send + Sync, V: Send + Sync, F: Fn(K, V) + Send + Sync> Hook<K, V> for FnHook<K, V, F> {
    fn call(&self, key: K, value: V) {
        proof {
            use_type_invariant(self);
        }
        (self.f)(key, value);
    }
}

fn boxed_hook<K, V, F>(callback: F) -> (hook: Option<Box<dyn Hook<K, V>>>)
    where
        K: Send + Sync + 'static,
        V: Send + Sync + 'static,
        F: Fn(K, V) + Send + Sync + 'static,
    requires
        forall|k: K, v: V| call_requires(callback, (k, v)),
    ensures
        hook is Some,
{
    let h = FnHook { f: callback, marker: core::marker::PhantomData };
    Some(Box::new(h))
}

/// The three hooks a cache notifies.
#[derive(Clone, Copy, Debug, PartialEq, Eq, Structural)]
pub enum HookKind {
    /// Sees each entry the cache evicts.
    Removing,
    /// Sees each new value given to a known key.
    Updating,
    /// Sees each new entry the cache stores.
    Inserting,
}

/// A call of a hook: which hook, which setting of that hook (the first setting is 1), and
/// the key and value it was given.
pub type HookCall<K, V> = (HookKind, nat, K, V);

/// The hooks of a cache, with a record of the calls made to them.
#[verifier::reject_recursive_types(K)]
#[verifier::reject_recursive_types(V)]
struct Hooks<K, V> {
    on_removing: Option<Box<dyn Hook<K, V>>>,
    on_updating: Option<Box<dyn Hook<K, V>>>,
    on_inserting: Option<Box<dyn Hook<K, V>>>,
    /// How often each hook has been set: removing, updating, inserting.
    settings: Ghost<(nat, nat, nat)>,
    /// The calls made to the hooks, oldest first.
    calls: Ghost<Seq<HookCall<K, V>>>,
}

impl<K, V> Hooks<K, V> {
    spec fn has(&self, kind: HookKind) -> bool {
        match kind {
            HookKind::Removing => self.on_removing is Some,
            HookKind::Updating => self.on_updating is Some,
            HookKind::Inserting => self.on_inserting is Some,
        }
    }

    spec fn setting(&self, kind: HookKind) -> nat {
        match kind {
            HookKind::Removing => self.settings@.0,
            HookKind::Updating => self.settings@.1,
            HookKind::Inserting => self.settings@.2,
        }
    }

    spec fn call_of(&self, kind: HookKind, key: K, value: V) -> Seq<HookCall<K, V>> {
        if self.has(kind) {
            seq![(kind, self.setting(kind), key, value)]
        } else {
            seq![]
        }
    }

    /// Calls the hook of `kind`, where one is set, with `key` and `value`.
    fn notify(&mut self, kind: HookKind, key: K, value: V)
        ensures
            final(self).calls@ == old(self).calls@ + old(self).call_of(kind, key, value),
            final(self).on_removing == old(self).on_removing,
            final(self).on_updating == old(self).on_updating,
            final(self).on_inserting == old(self).on_inserting,
            final(self).settings == old(self).settings,
    {
        let hook = match kind {
            HookKind::Removing => &self.on_removing,
            HookKind::Updating => &self.on_updating,
            HookKind::Inserting => &self.on_inserting,
        };
        match hook {
            Some(h) => {
                h.call(key, value);
                proof {
                    self.calls@ = self.calls@.push((kind, self.setting(kind), key, value));
                }
            },
            None => {},
        }
        proof {
            assert(self.calls@ =~= old(self).calls@ + old(self).call_of(kind, key, value));
        }
    }
}

// ---------------------------------------------------------------------------
// The cache.
// ---------------------------------------------------------------------------

struct Node<K, V> {
    key: K,
    value: V,
    next: usize,
    prev: usize,
}

/// A put that the cache refuses (a new key when the capacity is zero) calls no hook.
pub proof fn lemma_refused_put_calls_no_hook<K, V>(cache: LruCache<K, V>, key: K, value: V)
    requires
        !put_accepted(cache@, cache.capacity(), key),
    ensures
        cache.put_hook_calls(key, value) == Seq::<HookCall<K, V>>::empty(),
{
}

/// Whether the calls `actual` are the calls `expected`, each with a clone of its value.
pub open spec fn clones_of<K, V: Clone>(actual: Seq<HookCall<K, V>>, expected: Seq<HookCall<K, V>>) -> bool {
    &&& actual.len() == expected.len()
    &&& forall|i: int|
        0 <= i < actual.len() ==> (#[trigger] actual[i]).0 == expected[i].0 && actual[i].1 == expected[i].1
            && actual[i].2 == expected[i].2 && cloned(expected[i].3, actual[i].3)
}

/// A least-recently-used cache of at most `capacity` entries.
#[verifier::reject_recursive_types(K)]
#[verifier::reject_recursive_types(V)]
pub struct LruCache<K, V> {
    mapping: HashMap<K, usize>,
    caching: Vec<Node<K, V>>,
    capacity: usize,
    first: usize,
    last: usize,
    /// Node indices, most recently used first.
    order: Ghost<Seq<int>>,
    /// For each node index, where it stands in `order`.
    pos: Ghost<Seq<int>>,
    hooks: Hooks<K, V>,
}

impl<K, V> View for LruCache<K, V> {
    type V = Seq<(K, V)>;

    closed spec fn view(&self) -> Seq<(K, V)> {
        Seq::new(
            self.order@.len(),
            |i: int| (self.caching@[self.order@[i]].key, self.caching@[self.order@[i]].value),
        )
    }
}

impl<K, V> LruCache<K, V> {
    /// The most entries the cache holds.
    pub closed spec fn capacity(&self) -> nat {
        self.capacity as nat
    }

    /// Whether the hook of `kind` is set.
    pub closed spec fn has_hook(&self, kind: HookKind) -> bool {
        self.hooks.has(kind)
    }

    /// How often the hook of `kind` has been set; its calls carry this number.
    pub closed spec fn hook_setting(&self, kind: HookKind) -> nat {
        self.hooks.setting(kind)
    }

    /// The calls the cache has made to its hooks, oldest first.
    pub closed spec fn hook_calls(&self) -> Seq<HookCall<K, V>> {
        self.hooks.calls@
    }

    /// The call a notification of `kind` makes: one call of the hook as now set, or none
    /// where that hook is not set.
    pub open spec fn hook_call(&self, kind: HookKind, key: K, value: V) -> Seq<HookCall<K, V>> {
        if self.has_hook(kind) {
            seq![(kind, self.hook_setting(kind), key, value)]
        } else {
            seq![]
        }
    }

    /// Whether `other` has the same hooks, set as often, and the same record of calls.
    pub open spec fn same_hooks(&self, other: &Self) -> bool {
        &&& forall|kind: HookKind| #[trigger] self.has_hook(kind) == other.has_hook(kind)
        &&& forall|kind: HookKind| #[trigger] self.hook_setting(kind) == other.hook_setting(kind)
        &&& self.hook_calls() == other.hook_calls()
    }

    /// The hook calls that a put of `value` under `key` makes: the updating hook for a known
    /// key; for a new key, where the cache is full, the removing hook with the least recently
    /// used entry, then the inserting hook; none where the capacity is zero.
    pub open spec fn put_hook_calls(&self, key: K, value: V) -> Seq<HookCall<K, V>> {
        if keys_of(self@).contains(key) {
            self.hook_call(HookKind::Updating, key, value)
        } else if self.capacity() == 0 {
            seq![]
        } else if self@.len() >= self.capacity() {
            self.hook_call(HookKind::Removing, self@.last().0, self@.last().1) + self.hook_call(
                HookKind::Inserting,
                key,
                value,
            )
        } else {
            self.hook_call(HookKind::Inserting, key, value)
        }
    }

    closed spec fn n(&self) -> int {
        self.caching@.len() as int
    }

    closed spec fn slots_ok(&self) -> bool {
        let n = self.n();
        &&& self.order@.len() == n
        &&& self.pos@.len() == n
        &&& forall|i: int| 0 <= i < n ==> 0 <= #[trigger] self.order@[i] < n && self.pos@[self.order@[i]] == i
        &&& forall|j: int| 0 <= j < n ==> 0 <= #[trigger] self.pos@[j] < n && self.order@[self.pos@[j]] == j
    }

    closed spec fn links_ok(&self) -> bool {
        let n = self.n();
        &&& forall|j: int| 0 <= j < n ==> (#[trigger] self.caching@[j]).next < n && self.caching@[j].prev < n
        &&& n > 0 ==> self.first == self.order@[0] && self.last == self.order@[n - 1]
        &&& forall|j: int|
            0 <= j < n && self.pos@[j] < n - 1 ==> (#[trigger] self.caching@[j]).next == self.order@[self.pos@[j] + 1]
        &&& forall|j: int|
            0 <= j < n && 0 < self.pos@[j] ==> (#[trigger] self.caching@[j]).prev == self.order@[self.pos@[j] - 1]
    }

    closed spec fn mapping_ok(&self) -> bool {
        let n = self.n();
        &&& forall|j: int|
            0 <= j < n ==> self.mapping@.contains_key((#[trigger] self.caching@[j]).key)
                && self.mapping@[self.caching@[j].key] == j
        &&& forall|k: K|
            #[trigger] self.mapping@.contains_key(k) ==> 0 <= self.mapping@[k] < n
                && self.caching@[self.mapping@[k] as int].key == k
    }

    /// The cache's internal invariant.
    pub closed spec fn wf(&self) -> bool {
        &&& vstd::std_specs::hash::obeys_key_model::<K>()
        &&& vstd::std_specs::hash::builds_valid_hashers::<std::collections::hash_map::RandomState>()
        &&& self.n() <= self.capacity
        &&& self.slots_ok()
        &&& self.links_ok()
        &&& self.mapping_ok()
    }

    /// Every well-formed cache holds at most its capacity, each key at most once.
    pub proof fn lemma_bounded(&self)
        requires
            self.wf(),
        ensures
            self@.len() <= self.capacity(),
            keys_of(self@).no_duplicates(),
    {
        self.lemma_view_facts();
    }

    /// What a put does to a well-formed cache: it is accepted exactly when the capacity is
    /// positive, a known key included. An accepted put leaves `key` as the most recently
    /// used entry holding `value`, so a lookup right after it hits, returns that value and
    /// reorders nothing; and it calls the hooks `put_hook_calls` names. A refused put
    /// stores nothing and calls no hook.
    pub proof fn lemma_put_law(&self, key: K, value: V)
        requires
            self.wf(),
        ensures
            put_accepted(self@, self.capacity(), key) == (self.capacity() > 0),
            self.capacity() > 0 ==> {
                let t = after_put(self@, self.capacity(), key, value);
                &&& keys_of(t).contains(key)
                &&& position_of(t, key) == 0
                &&& t[0] == (key, value)
                &&& after_get(t, key) == t
            },
            self.capacity() == 0 ==> after_put(self@, self.capacity(), key, value) == self@
                && self.put_hook_calls(key, value) == Seq::<HookCall<K, V>>::empty(),
    {
        self.lemma_bounded();
        if self.capacity() > 0 {
            lemma_get_after_put(self@, self.capacity(), key, value);
        } else {
            assert(self@.len() == 0);
            assert(!keys_of(self@).contains(key));
        }
    }

    proof fn lemma_view_facts(&self)
        requires
            self.wf(),
        ensures
            self@.len() == self.n(),
            keys_of(self@).no_duplicates(),
            forall|i: int| 0 <= i < self.n() ==> #[trigger] self@[i] == (self.caching@[self.order@[i]].key, self.caching@[self.order@[i]].value),
            forall|k: K| keys_of(self@).contains(k) <==> self.mapping@.contains_key(k),
    {
        let s = self@;
        let ks = keys_of(s);
        assert forall|a: int, b: int| 0 <= a < ks.len() && 0 <= b < ks.len() && a != b implies ks[a] != ks[b] by {
            let ja = self.order@[a];
            let jb = self.order@[b];
            assert(self.caching@[ja].key == ks[a]);
            assert(self.caching@[jb].key == ks[b]);
            assert(self.pos@[ja] == a);
            assert(self.pos@[jb] == b);
            if ks[a] == ks[b] {
                assert(self.mapping@[self.caching@[ja].key] == ja);
                assert(self.mapping@[self.caching@[jb].key] == jb);
            }
        }
        assert forall|k: K| ks.contains(k) <==> self.mapping@.contains_key(k) by {
            if ks.contains(k) {
                let i = choose|i: int| 0 <= i < ks.len() && ks[i] == k;
                assert(self.caching@[self.order@[i]].key == k);
            }
            if self.mapping@.contains_key(k) {
                let j = self.mapping@[k] as int;
                let i = self.pos@[j];
                assert(self.order@[i] == j);
                assert(ks[i] == k);
            }
        }
    }
}

impl<K: Copy + std::hash::Hash + Eq + Send + Sync + 'static, V: Clone + Send + Sync + 'static> LruCache<K, V> {
    /// An empty cache that holds at most `capacity` entries.
    pub fn new(capacity: usize) -> (cache: Self)
        requires
            vstd::std_specs::hash::obeys_key_model::<K>(),
        ensures
            cache.wf(),
            cache@ == Seq::<(K, V)>::empty(),
            cache.capacity() == capacity,
            forall|kind: HookKind| !(#[trigger] cache.has_hook(kind)) && cache.hook_setting(kind) == 0,
            cache.hook_calls() == Seq::<HookCall<K, V>>::empty(),
    {
        LruCache {
            mapping: HashMap::new(),
            caching: Vec::new(),
            capacity,
            first: 0,
            last: 0,
            order: Ghost(Seq::empty()),
            pos: Ghost(Seq::empty()),
            hooks: Hooks {
                on_removing: None,
                on_updating: None,
                on_inserting: None,
                settings: Ghost((0, 0, 0)),
                calls: Ghost(Seq::empty()),
            },
        }
    }

    /// Moves node `index` to the front of the recency chain.
    fn move_to_front(&mut self, index: usize)
        requires
            old(self).wf(),
            index < old(self).caching@.len(),
        ensures
            final(self).wf(),
            final(self)@ == touched(old(self)@, old(self).pos@[index as int]),
            final(self).mapping@ == old(self).mapping@,
            final(self).capacity == old(self).capacity,
            final(self).hooks == old(self).hooks,
            final(self).caching@.len() == old(self).caching@.len(),
            forall|j: int| 0 <= j < final(self).caching@.len() ==>
                (#[trigger] final(self).caching@[j]).key == old(self).caching@[j].key
                && final(self).caching@[j].value == old(self).caching@[j].value,
    {
        let ghost pre: Self = *self;
        let ghost n = self.n();
        let ghost p = self.pos@[index as int];
        let first = self.first;
        let last = self.last;
        if index == first || self.caching.len() <= 1 {
            proof {
                assert(p == 0);
                assert(touched(pre@, 0) =~= pre@);
            }
            return;
        }
        let next = self.caching[index].next;
        let prev = self.caching[index].prev;
        self.caching[prev].next = next;
        if index != last {
            self.caching[next].prev = prev;
        }
        self.caching[index].next = first;
        self.caching[index].prev = index;
        self.caching[first].prev = index;
        self.first = index;
        if index == last {
            self.last = prev;
        }
        proof {
            self.order@ = Seq::new(n as nat, |i: int| if i == 0 { index as int } else if i <= p { pre.order@[i - 1] } else { pre.order@[i] });
            self.pos@ = Seq::new(n as nat, |j: int| if j == index as int { 0 } else if pre.pos@[j] < p { pre.pos@[j] + 1 } else { pre.pos@[j] });
            Self::lemma_front_slots(pre, *self, index as int, p);
            Self::lemma_front_links(pre, *self, index as int, p, prev as int, next as int);
            Self::lemma_front_mapping(pre, *self);
            Self::lemma_front_view(pre, *self, index as int, p);
        }
    }

    proof fn lemma_front_slots(pre: Self, post: Self, index: int, p: int)
        requires
            pre.wf(),
            0 <= index < pre.n(),
            p == pre.pos@[index],
            0 < p,
            post.caching@.len() == pre.caching@.len(),
            post.order@ == Seq::new(pre.n() as nat, |i: int| if i == 0 { index } else if i <= p { pre.order@[i - 1] } else { pre.order@[i] }),
            post.pos@ == Seq::new(pre.n() as nat, |j: int| if j == index { 0 } else if pre.pos@[j] < p { pre.pos@[j] + 1 } else { pre.pos@[j] }),
        ensures
            post.slots_ok(),
    {
        let n = pre.n();
        assert forall|i: int| 0 <= i < n implies 0 <= #[trigger] post.order@[i] < n && post.pos@[post.order@[i]] == i by {
            if i == 0 {
            } else if i <= p {
                assert(pre.pos@[pre.order@[i - 1]] == i - 1);
            } else {
                assert(pre.pos@[pre.order@[i]] == i);
            }
        }
        assert forall|j: int| 0 <= j < n implies 0 <= #[trigger] post.pos@[j] < n && post.order@[post.pos@[j]] == j by {
            if j != index {
                assert(pre.order@[pre.pos@[j]] == j);
                assert(pre.pos@[j] != p);
            }
        }
    }

    proof fn lemma_front_links(pre: Self, post: Self, index: int, p: int, prev: int, next: int)
        requires
            pre.wf(),
            post.slots_ok(),
            0 <= index < pre.n(),
            p == pre.pos@[index],
            0 < p,
            prev == pre.caching@[index].prev,
            next == pre.caching@[index].next,
            post.caching@.len() == pre.caching@.len(),
            post.order@ == Seq::new(pre.n() as nat, |i: int| if i == 0 { index } else if i <= p { pre.order@[i - 1] } else { pre.order@[i] }),
            post.pos@ == Seq::new(pre.n() as nat, |j: int| if j == index { 0 } else if pre.pos@[j] < p { pre.pos@[j] + 1 } else { pre.pos@[j] }),
            post.first == index,
            post.last == if p == pre.n() - 1 { prev as usize } else { pre.last },
            forall|j: int| 0 <= j < pre.n() ==> (#[trigger] post.caching@[j]).next == (
                if j == index { pre.first } else if j == prev { next as usize } else { pre.caching@[j].next }),
            forall|j: int| 0 <= j < pre.n() ==> (#[trigger] post.caching@[j]).prev == (
                if j == index { index as usize }
                else if j == pre.first as int { index as usize }
                else if p < pre.n() - 1 && j == next { prev as usize }
                else { pre.caching@[j].prev }),
        ensures
            post.links_ok(),
    {
        let n = pre.n();
        assert(pre.order@[pre.pos@[index]] == index);
        assert(prev == pre.order@[p - 1]);
        assert(pre.pos@[prev] == p - 1);
        assert(pre.first == pre.order@[0]);
        assert(pre.pos@[pre.first as int] == 0);
        if p < n - 1 {
            assert(next == pre.order@[p + 1]);
            assert(pre.pos@[next] == p + 1);
        }
        assert forall|j: int| 0 <= j < n implies (#[trigger] post.caching@[j]).next < n && post.caching@[j].prev < n by {
            assert(pre.caching@[j].next < n && pre.caching@[j].prev < n);
        }
        assert forall|j: int|
            0 <= j < n && post.pos@[j] < n - 1 implies (#[trigger] post.caching@[j]).next == post.order@[post.pos@[j] + 1] by {
            assert(pre.order@[pre.pos@[j]] == j);
            if j == index {
            } else if j == prev {
            } else {
                assert(pre.caching@[j].next == pre.order@[pre.pos@[j] + 1]);
            }
        }
        assert forall|j: int|
            0 <= j < n && 0 < post.pos@[j] implies (#[trigger] post.caching@[j]).prev == post.order@[post.pos@[j] - 1] by {
            assert(pre.order@[pre.pos@[j]] == j);
            if j == index {
            } else if j == pre.first as int {
            } else if p < n - 1 && j == next {
            } else {
                assert(pre.caching@[j].prev == pre.order@[pre.pos@[j] - 1]);
            }
        }
    }

    proof fn lemma_front_mapping(pre: Self, post: Self)
        requires
            pre.wf(),
            post.mapping@ == pre.mapping@,
            post.caching@.len() == pre.caching@.len(),
            forall|j: int| 0 <= j < pre.n() ==> (#[trigger] post.caching@[j]).key == pre.caching@[j].key,
        ensures
            post.mapping_ok(),
    {
        let n = pre.n();
        assert forall|j: int| 0 <= j < n implies post.mapping@.contains_key((#[trigger] post.caching@[j]).key)
            && post.mapping@[post.caching@[j].key] == j by {
            assert(pre.caching@[j].key == post.caching@[j].key);
        }
        assert forall|k: K| #[trigger] post.mapping@.contains_key(k) implies 0 <= post.mapping@[k] < n
            && post.caching@[post.mapping@[k] as int].key == k by {
            assert(pre.caching@[post.mapping@[k] as int].key == k);
        }
    }

    proof fn lemma_front_view(pre: Self, post: Self, index: int, p: int)
        requires
            pre.wf(),
            0 <= index < pre.n(),
            p == pre.pos@[index],
            0 < p,
            post.caching@.len() == pre.caching@.len(),
            post.order@ == Seq::new(pre.n() as nat, |i: int| if i == 0 { index } else if i <= p { pre.order@[i - 1] } else { pre.order@[i] }),
            forall|j: int| 0 <= j < pre.n() ==> (#[trigger] post.caching@[j]).key == pre.caching@[j].key
                && post.caching@[j].value == pre.caching@[j].value,
        ensures
            post@ == touched(pre@, p),
    {
        let n = pre.n();
        let t = touched(pre@, p);
        assert(pre.order@[p] == index);
        assert forall|i: int| 0 <= i < n implies #[trigger] post@[i] == t[i] by {
            if i == 0 {
            } else if i <= p {
                assert(t[i] == pre@[i - 1]);
                assert(0 <= pre.order@[i - 1] < n);
            } else {
                assert(t[i] == pre@[i]);
                assert(0 <= pre.order@[i] < n);
            }
        }
        assert(post@ =~= t);
    }

    /// Gives `value` to the node of a known key and moves it to the front.
    fn update_existing(&mut self, index: usize, value: V)
        requires
            old(self).wf(),
            index < old(self).caching@.len(),
        ensures
            final(self).wf(),
            final(self).capacity == old(self).capacity,
            final(self).hooks == old(self).hooks,
            final(self)@ == seq![(old(self).caching@[index as int].key, value)] + old(self)@.remove(old(self).pos@[index as int]),
    {
        let ghost pre: Self = *self;
        let ghost p = self.pos@[index as int];
        self.caching[index].value = value;
        proof {
            Self::lemma_value_set(pre, *self, index as int);
        }
        let ghost mid: Self = *self;
        self.move_to_front(index);
        proof {
            let k = pre.caching@[index as int].key;
            assert(mid@ =~= pre@.update(p, (k, value)));
            assert(touched(mid@, p) =~= seq![(k, value)] + pre@.remove(p));
        }
    }

    proof fn lemma_value_set(pre: Self, post: Self, index: int)
        requires
            pre.wf(),
            0 <= index < pre.n(),
            post.caching@.len() == pre.caching@.len(),
            post.caching@[index].key == pre.caching@[index].key,
            post.caching@[index].next == pre.caching@[index].next,
            post.caching@[index].prev == pre.caching@[index].prev,
            forall|j: int| 0 <= j < pre.n() && j != index ==> #[trigger] post.caching@[j] == pre.caching@[j],
            post.order == pre.order,
            post.pos == pre.pos,
            post.first == pre.first,
            post.last == pre.last,
            post.mapping@ == pre.mapping@,
            post.capacity == pre.capacity,
        ensures
            post.wf(),
            forall|j: int| 0 <= j < pre.n() ==> (#[trigger] post.caching@[j]).key == pre.caching@[j].key,
            forall|j: int| 0 <= j < pre.n() && j != index ==> (#[trigger] post.caching@[j]).value == pre.caching@[j].value,
    {
        let n = pre.n();
        assert forall|j: int| 0 <= j < n implies (#[trigger] post.caching@[j]).next == pre.caching@[j].next
            && post.caching@[j].prev == pre.caching@[j].prev && post.caching@[j].key == pre.caching@[j].key by {
            if j != index {
                assert(post.caching@[j] == pre.caching@[j]);
            }
        }
        assert(post.links_ok());
        Self::lemma_front_mapping(pre, post);
    }

    /// Adds a new key in a fresh node at the front; the cache has room.
    fn push_front(&mut self, key: K, value: V)
        requires
            old(self).wf(),
            old(self).caching@.len() < old(self).capacity,
            !old(self).mapping@.contains_key(key),
        ensures
            final(self).wf(),
            final(self).capacity == old(self).capacity,
            final(self).hooks == old(self).hooks,
            final(self)@ == seq![(key, value)] + old(self)@,
    {
        let ghost pre: Self = *self;
        let n = self.caching.len();
        let first = self.first;
        let mut prev = self.last;
        let mut next = first;
        if n == 0 {
            next = 0;
            self.first = 0;
            self.last = 0;
            prev = 0;
        } else {
            self.caching[first].prev = n;
            self.first = n;
        }
        self.caching.push(Node { key, value, next, prev });
        self.mapping.insert(key, n);
        proof {
            self.order@ = seq![n as int] + pre.order@;
            self.pos@ = Seq::new((n + 1) as nat, |j: int| if j == n as int { 0 } else { pre.pos@[j] + 1 });
            Self::lemma_push_front(pre, *self, key, value);
        }
    }

    proof fn lemma_push_front(pre: Self, post: Self, key: K, value: V)
        requires
            pre.wf(),
            !pre.mapping@.contains_key(key),
            pre.n() < pre.capacity,
            post.capacity == pre.capacity,
            post.caching@.len() == pre.n() + 1,
            post.caching@[pre.n()].key == key,
            post.caching@[pre.n()].value == value,
            post.caching@[pre.n()].next == (if pre.n() == 0 { 0 } else { pre.first }),
            pre.n() == 0 ==> post.caching@[pre.n()].prev == 0,
            pre.n() > 0 ==> post.caching@[pre.n()].prev == pre.last,
            forall|j: int| 0 <= j < pre.n() ==> (#[trigger] post.caching@[j]).key == pre.caching@[j].key
                && post.caching@[j].value == pre.caching@[j].value
                && post.caching@[j].next == pre.caching@[j].next
                && post.caching@[j].prev == (if pre.n() > 0 && j == pre.first as int { pre.n() as usize } else { pre.caching@[j].prev }),
            post.first == pre.n(),
            pre.n() > 0 ==> post.last == pre.last,
            pre.n() == 0 ==> post.last == 0,
            post.order@ == seq![pre.n()] + pre.order@,
            post.pos@ == Seq::new((pre.n() + 1) as nat, |j: int| if j == pre.n() { 0 } else { pre.pos@[j] + 1 }),
            post.mapping@ == pre.mapping@.insert(key, pre.n() as usize),
        ensures
            post.wf(),
            post@ == seq![(key, value)] + pre@,
    {
        let n = pre.n();
        let m = n + 1;
        if n > 0 {
            assert(pre.first == pre.order@[0]);
            assert(pre.pos@[pre.first as int] == 0);
            assert(pre.caching@[pre.first as int].next < n);
        }
        assert forall|i: int| 0 <= i < m implies 0 <= #[trigger] post.order@[i] < m && post.pos@[post.order@[i]] == i by {
            if i > 0 {
                assert(post.order@[i] == pre.order@[i - 1]);
                assert(pre.pos@[pre.order@[i - 1]] == i - 1);
            }
        }
        assert forall|j: int| 0 <= j < m implies 0 <= #[trigger] post.pos@[j] < m && post.order@[post.pos@[j]] == j by {
            if j < n {
                assert(pre.order@[pre.pos@[j]] == j);
            }
        }
        assert(post.slots_ok());
        assert forall|j: int| 0 <= j < m implies (#[trigger] post.caching@[j]).next < m && post.caching@[j].prev < m by {
            if j < n {
                assert(pre.caching@[j].next < n && pre.caching@[j].prev < n);
            }
        }
        assert forall|j: int|
            0 <= j < m && post.pos@[j] < m - 1 implies (#[trigger] post.caching@[j]).next == post.order@[post.pos@[j] + 1] by {
            if j == n {
                assert(post.order@[1] == pre.order@[0]);
            } else {
                assert(pre.order@[pre.pos@[j]] == j);
                assert(pre.caching@[j].next == pre.order@[pre.pos@[j] + 1]);
            }
        }
        assert forall|j: int|
            0 <= j < m && 0 < post.pos@[j] implies (#[trigger] post.caching@[j]).prev == post.order@[post.pos@[j] - 1] by {
            assert(j != n);
            assert(pre.order@[pre.pos@[j]] == j);
            if j == pre.first as int {
                assert(pre.pos@[j] == 0);
            } else {
                assert(pre.pos@[j] != 0);
                assert(pre.caching@[j].prev == pre.order@[pre.pos@[j] - 1]);
            }
        }
        assert(post.links_ok());
        assert forall|j: int| 0 <= j < m implies post.mapping@.contains_key((#[trigger] post.caching@[j]).key)
            && post.mapping@[post.caching@[j].key] == j by {
            if j < n {
                assert(pre.mapping@.contains_key(pre.caching@[j].key));
                assert(pre.caching@[j].key != key);
            }
        }
        assert forall|k: K| #[trigger] post.mapping@.contains_key(k) implies 0 <= post.mapping@[k] < m
            && post.caching@[post.mapping@[k] as int].key == k by {
            if k != key {
                assert(pre.mapping@.contains_key(k));
            }
        }
        assert(post.mapping_ok());
        let t = seq![(key, value)] + pre@;
        assert forall|i: int| 0 <= i < m implies #[trigger] post@[i] == t[i] by {
            if i > 0 {
                assert(0 <= pre.order@[i - 1] < n);
            }
        }
        assert(post@ =~= t);
    }

    /// Drops the least recently used entry and puts a new key at the front in its node.
    fn replace_last(&mut self, key: K, value: V)
        requires
            old(self).wf(),
            old(self).caching@.len() > 0,
            old(self).caching@.len() >= old(self).capacity,
            !old(self).mapping@.contains_key(key),
        ensures
            final(self).wf(),
            final(self).capacity == old(self).capacity,
            final(self)@ == seq![(key, value)] + old(self)@.drop_last(),
            final(self).hooks.on_removing == old(self).hooks.on_removing,
            final(self).hooks.on_updating == old(self).hooks.on_updating,
            final(self).hooks.on_inserting == old(self).hooks.on_inserting,
            final(self).hooks.settings == old(self).hooks.settings,
            exists|c: V| cloned(old(self)@.last().1, c) && final(self).hooks.calls@ == old(self).hooks.calls@
                + old(self).hooks.call_of(HookKind::Removing, old(self)@.last().0, c),
    {
        let ghost pre: Self = *self;
        let n = self.caching.len();
        let slot = self.last;
        let old_key = self.caching[slot].key;
        let old_value = self.caching[slot].value.clone();
        proof {
            assert(pre.order@[n - 1] == slot as int);
            assert(pre@.last() == (old_key, pre.caching@[slot as int].value));
        }
        self.hooks.notify(HookKind::Removing, old_key, old_value);
        let ghost logged = self.hooks.calls@;
        proof {
            assert(cloned(pre@.last().1, old_value));
            assert(logged == pre.hooks.calls@ + pre.hooks.call_of(HookKind::Removing, pre@.last().0, old_value));
        }
        self.mapping.remove(&old_key);
        let ghost mid_mapping = self.mapping@;
        if n == 1 {
            self.caching[slot] = Node { key, value, next: 0, prev: 0 };
            self.first = 0;
            self.last = 0;
        } else {
            let first = self.first;
            let new_last = self.caching[slot].prev;
            self.last = new_last;
            self.caching[first].prev = slot;
            self.caching[slot] = Node { key, value, next: first, prev: slot };
            self.first = slot;
        }
        self.mapping.insert(key, slot);
        proof {
            assert(mid_mapping == pre.mapping@.remove(old_key));
            self.order@ = Seq::new(n as nat, |i: int| if i == 0 { slot as int } else { pre.order@[i - 1] });
            self.pos@ = Seq::new(n as nat, |j: int| if j == slot as int { 0 } else { pre.pos@[j] + 1 });
            Self::lemma_replace_last(pre, *self, key, value);
            assert(self.hooks.calls@ == logged);
        }
    }

    proof fn lemma_replace_last(pre: Self, post: Self, key: K, value: V)
        requires
            pre.wf(),
            pre.n() > 0,
            !pre.mapping@.contains_key(key),
            post.capacity == pre.capacity,
            post.caching@.len() == pre.n(),
            post.caching@[pre.last as int].key == key,
            post.caching@[pre.last as int].value == value,
            pre.n() == 1 ==> post.caching@[pre.last as int].next == 0 && post.caching@[pre.last as int].prev == 0,
            pre.n() > 1 ==> post.caching@[pre.last as int].next == pre.first && post.caching@[pre.last as int].prev == pre.last,
            forall|j: int| 0 <= j < pre.n() && j != pre.last ==> (#[trigger] post.caching@[j]).key == pre.caching@[j].key
                && post.caching@[j].value == pre.caching@[j].value
                && post.caching@[j].next == pre.caching@[j].next
                && post.caching@[j].prev == (if j == pre.first as int { pre.last } else { pre.caching@[j].prev }),
            post.first == pre.last,
            pre.n() == 1 ==> post.last == 0,
            pre.n() > 1 ==> post.last == pre.caching@[pre.last as int].prev,
            post.order@ == Seq::new(pre.n() as nat, |i: int| if i == 0 { pre.last as int } else { pre.order@[i - 1] }),
            post.pos@ == Seq::new(pre.n() as nat, |j: int| if j == pre.last as int { 0 } else { pre.pos@[j] + 1 }),
            post.mapping@ == pre.mapping@.remove(pre.caching@[pre.last as int].key).insert(key, pre.last),
        ensures
            post.wf(),
            post@ == seq![(key, value)] + pre@.drop_last(),
    {
        let n = pre.n();
        let s = pre.last as int;
        let old_key = pre.caching@[s].key;
        assert(pre.order@[n - 1] == s);
        assert(pre.pos@[s] == n - 1);
        assert(pre.first == pre.order@[0]);
        if n == 1 {
            assert(s == 0);
        }
        assert forall|i: int| 0 <= i < n implies 0 <= #[trigger] post.order@[i] < n && post.pos@[post.order@[i]] == i by {
            if i > 0 {
                assert(post.order@[i] == pre.order@[i - 1]);
                assert(pre.pos@[pre.order@[i - 1]] == i - 1);
            }
        }
        assert forall|j: int| 0 <= j < n implies 0 <= #[trigger] post.pos@[j] < n && post.order@[post.pos@[j]] == j by {
            if j != s {
                assert(pre.order@[pre.pos@[j]] == j);
                assert(pre.pos@[j] != n - 1);
            }
        }
        assert(post.slots_ok());
        assert forall|j: int| 0 <= j < n implies (#[trigger] post.caching@[j]).next < n && post.caching@[j].prev < n by {
            assert(pre.caching@[j].next < n && pre.caching@[j].prev < n);
        }
        if n > 1 {
            assert(pre.caching@[s].prev == pre.order@[n - 2]);
        }
        assert forall|j: int|
            0 <= j < n && post.pos@[j] < n - 1 implies (#[trigger] post.caching@[j]).next == post.order@[post.pos@[j] + 1] by {
            if j == s {
                assert(post.order@[1] == pre.order@[0]);
            } else {
                assert(pre.order@[pre.pos@[j]] == j);
                assert(pre.caching@[j].next == pre.order@[pre.pos@[j] + 1]);
            }
        }
        assert forall|j: int|
            0 <= j < n && 0 < post.pos@[j] implies (#[trigger] post.caching@[j]).prev == post.order@[post.pos@[j] - 1] by {
            assert(j != s);
            assert(pre.order@[pre.pos@[j]] == j);
            if j == pre.first as int {
                assert(pre.pos@[j] == 0);
            } else {
                assert(pre.pos@[j] != 0);
                assert(pre.caching@[j].prev == pre.order@[pre.pos@[j] - 1]);
            }
        }
        assert(post.links_ok());
        assert forall|j: int| 0 <= j < n implies post.mapping@.contains_key((#[trigger] post.caching@[j]).key)
            && post.mapping@[post.caching@[j].key] == j by {
            if j != s {
                assert(pre.mapping@.contains_key(pre.caching@[j].key));
                assert(pre.caching@[j].key != key);
                assert(pre.mapping@[pre.caching@[j].key] == j);
                assert(pre.caching@[j].key != old_key);
            }
        }
        assert forall|k: K| #[trigger] post.mapping@.contains_key(k) implies 0 <= post.mapping@[k] < n
            && post.caching@[post.mapping@[k] as int].key == k by {
            if k != key {
                assert(pre.mapping@.contains_key(k));
                assert(k != old_key);
                assert(pre.mapping@[k] != s);
            }
        }
        assert(post.mapping_ok());
        let t = seq![(key, value)] + pre@.drop_last();
        assert forall|i: int| 0 <= i < n implies #[trigger] post@[i] == t[i] by {
            if i > 0 {
                assert(0 <= pre.order@[i - 1] < n);
                assert(pre.order@[i - 1] != s);
            }
        }
        assert(post@ =~= t);
    }

    /// The entry held under `key`, if any; a hit makes it the most recently used entry.
    pub fn get(&mut self, key: &K) -> (r: Option<V>)
        requires
            old(self).wf(),
        ensures
            final(self).wf(),
            final(self).capacity() == old(self).capacity(),
            final(self)@ == after_get(old(self)@, *key),
            final(self).same_hooks(old(self)),
            r is Some <==> keys_of(old(self)@).contains(*key),
            r matches Some(v) ==> cloned(old(self)@[position_of(old(self)@, *key)].1, v),
    {
        proof {
            self.lemma_view_facts();
        }
        let ghost pre: Self = *self;
        let found = match self.mapping.get(key) {
            Some(i) => Some(*i),
            None => None,
        };
        match found {
            Some(index) => {
                proof {
                    let p = pre.pos@[index as int];
                    assert(pre.order@[p] == index);
                    assert(pre@[p] == (*key, pre.caching@[index as int].value));
                    lemma_position_of(pre@, p);
                }
                self.move_to_front(index);
                Some(self.caching[index].value.clone())
            },
            None => None,
        }
    }

    /// Makes the entry under `key`, if any, the most recently used one, as a lookup does;
    /// answers whether there is one.
    pub fn touch(&mut self, key: &K) -> (hit: bool)
        requires
            old(self).wf(),
        ensures
            final(self).wf(),
            final(self).capacity() == old(self).capacity(),
            final(self)@ == after_get(old(self)@, *key),
            final(self).same_hooks(old(self)),
            hit == keys_of(old(self)@).contains(*key),
    {
        proof {
            self.lemma_view_facts();
        }
        let ghost pre: Self = *self;
        let found = match self.mapping.get(key) {
            Some(i) => Some(*i),
            None => None,
        };
        match found {
            Some(index) => {
                proof {
                    let p = pre.pos@[index as int];
                    assert(pre.order@[p] == index);
                    assert(pre@[p] == (*key, pre.caching@[index as int].value));
                    lemma_position_of(pre@, p);
                }
                self.move_to_front(index);
                true
            },
            None => false,
        }
    }

    /// The value held under `key`, if any, without changing which entry is most recent.
    pub fn peek(&self, key: &K) -> (r: Option<&V>)
        requires
            self.wf(),
        ensures
            r is Some <==> keys_of(self@).contains(*key),
            r matches Some(v) ==> *v == self@[position_of(self@, *key)].1,
    {
        proof {
            self.lemma_view_facts();
        }
        match self.mapping.get(key) {
            Some(i) => {
                let index = *i;
                proof {
                    let p = self.pos@[index as int];
                    assert(self.order@[p] == index);
                    assert(self@[p] == (*key, self.caching@[index as int].value));
                    lemma_position_of(self@, p);
                }
                Some(&self.caching[index].value)
            },
            None => None,
        }
    }

    /// Stores `value` under `key` and makes it the most recently used entry.
    ///
    /// A known key takes the new value (the updating hook sees it first). A new key needs
    /// room: when the cache is full the least recently used entry is evicted (the removing
    /// hook sees it), then the inserting hook sees the new entry. A cache of capacity zero
    /// refuses every new key and answers `false`; every other put answers `true`.
    pub fn put(&mut self, key: K, value: V) -> (accepted: bool)
        requires
            old(self).wf(),
        ensures
            final(self).wf(),
            final(self).capacity() == old(self).capacity(),
            final(self)@ == after_put(old(self)@, old(self).capacity(), key, value),
            accepted == put_accepted(old(self)@, old(self).capacity(), key),
            forall|kind: HookKind| #[trigger] final(self).has_hook(kind) == old(self).has_hook(kind),
            forall|kind: HookKind| #[trigger] final(self).hook_setting(kind) == old(self).hook_setting(kind),
            final(self).hook_calls().len() >= old(self).hook_calls().len(),
            final(self).hook_calls().take(old(self).hook_calls().len() as int) == old(self).hook_calls(),
            clones_of(final(self).hook_calls().skip(old(self).hook_calls().len() as int), old(self).put_hook_calls(key, value)),
    {
        proof {
            self.lemma_view_facts();
        }
        let ghost pre: Self = *self;
        let found = match self.mapping.get(&key) {
            Some(i) => Some(*i),
            None => None,
        };
        match found {
            Some(index) => {
                let updated = value.clone();
                self.hooks.notify(HookKind::Updating, key, updated);
                proof {
                    let p = pre.pos@[index as int];
                    assert(pre.order@[p] == index);
                    assert(pre@[p].0 == key);
                    lemma_position_of(pre@, p);
                }
                self.update_existing(index, value);
                proof {
                    let fresh = self.hook_calls().skip(pre.hook_calls().len() as int);
                    assert(self.hook_calls().take(pre.hook_calls().len() as int) =~= pre.hook_calls());
                    assert(fresh =~= pre.hooks.call_of(HookKind::Updating, key, updated));
                }
            },
            None => {
                if self.capacity == 0 {
                    proof {
                        assert(self.hook_calls().take(pre.hook_calls().len() as int) =~= pre.hook_calls());
                        assert(self.hook_calls().skip(pre.hook_calls().len() as int) =~= Seq::<HookCall<K, V>>::empty());
                    }
                    return false;
                }
                let inserted = value.clone();
                if self.caching.len() >= self.capacity {
                    self.replace_last(key, value);
                    let ghost mid = self.hooks.calls@;
                    self.hooks.notify(HookKind::Inserting, key, inserted);
                    proof {
                        let c = choose|c: V| cloned(pre@.last().1, c) && mid == pre.hooks.calls@
                            + pre.hooks.call_of(HookKind::Removing, pre@.last().0, c);
                        let fresh = self.hook_calls().skip(pre.hook_calls().len() as int);
                        assert(self.hook_calls().take(pre.hook_calls().len() as int) =~= pre.hook_calls());
                        assert(fresh =~= pre.hooks.call_of(HookKind::Removing, pre@.last().0, c)
                            + pre.hooks.call_of(HookKind::Inserting, key, inserted));
                        let expected = pre.put_hook_calls(key, value);
                        assert(expected =~= pre.hooks.call_of(HookKind::Removing, pre@.last().0, pre@.last().1)
                            + pre.hooks.call_of(HookKind::Inserting, key, value));
                    }
                } else {
                    self.push_front(key, value);
                    self.hooks.notify(HookKind::Inserting, key, inserted);
                    proof {
                        let fresh = self.hook_calls().skip(pre.hook_calls().len() as int);
                        assert(self.hook_calls().take(pre.hook_calls().len() as int) =~= pre.hook_calls());
                        assert(fresh =~= pre.hooks.call_of(HookKind::Inserting, key, inserted));
                    }
                }
            },
        }
        true
    }

    /// Sets the hook that sees each entry the cache evicts.
    pub fn set_on_removing_callback<F>(&mut self, callback: F)
        where
            F: Fn(K, V) + Send + Sync + 'static,
        requires
            old(self).wf(),
            forall|k: K, v: V| call_requires(callback, (k, v)),
        ensures
            final(self).wf(),
            final(self)@ == old(self)@,
            final(self).capacity() == old(self).capacity(),
            final(self).has_hook(HookKind::Removing),
            final(self).hook_setting(HookKind::Removing) == old(self).hook_setting(HookKind::Removing) + 1,
            forall|kind: HookKind| kind != HookKind::Removing ==> #[trigger] final(self).has_hook(kind) == old(self).has_hook(kind)
                && final(self).hook_setting(kind) == old(self).hook_setting(kind),
            final(self).hook_calls() == old(self).hook_calls(),
    {
        self.hooks.on_removing = boxed_hook(callback);
        proof {
            self.hooks.settings@ = (old(self).hooks.settings@.0 + 1, old(self).hooks.settings@.1, old(self).hooks.settings@.2);
        }
    }

    /// Sets the hook that sees each new entry the cache stores.
    pub fn set_on_inserting_callback<F>(&mut self, callback: F)
        where
            F: Fn(K, V) + Send + Sync + 'static,
        requires
            old(self).wf(),
            forall|k: K, v: V| call_requires(callback, (k, v)),
        ensures
            final(self).wf(),
            final(self)@ == old(self)@,
            final(self).capacity() == old(self).capacity(),
            final(self).has_hook(HookKind::Inserting),
            final(self).hook_setting(HookKind::Inserting) == old(self).hook_setting(HookKind::Inserting) + 1,
            forall|kind: HookKind| kind != HookKind::Inserting ==> #[trigger] final(self).has_hook(kind) == old(self).has_hook(kind)
                && final(self).hook_setting(kind) == old(self).hook_setting(kind),
            final(self).hook_calls() == old(self).hook_calls(),
    {
        self.hooks.on_inserting = boxed_hook(callback);
        proof {
            self.hooks.settings@ = (old(self).hooks.settings@.0, old(self).hooks.settings@.1, old(self).hooks.settings@.2 + 1);
        }
    }

    /// Sets the hook that sees each new value given to a known key.
    pub fn set_on_updating_callback<F>(&mut self, callback: F)
        where
            F: Fn(K, V) + Send + Sync + 'static,
        requires
            old(self).wf(),
            forall|k: K, v: V| call_requires(callback, (k, v)),
        ensures
            final(self).wf(),
            final(self)@ == old(self)@,
            final(self).capacity() == old(self).capacity(),
            final(self).has_hook(HookKind::Updating),
            final(self).hook_setting(HookKind::Updating) == old(self).hook_setting(HookKind::Updating) + 1,
            forall|kind: HookKind| kind != HookKind::Updating ==> #[trigger] final(self).has_hook(kind) == old(self).has_hook(kind)
                && final(self).hook_setting(kind) == old(self).hook_setting(kind),
            final(self).hook_calls() == old(self).hook_calls(),
    {
        self.hooks.on_updating = boxed_hook(callback);
        proof {
            self.hooks.settings@ = (old(self).hooks.settings@.0, old(self).hooks.settings@.1 + 1, old(self).hooks.settings@.2);
        }
    }

    /// The number of entries held.
    pub fn len(&self) -> (r: usize)
        requires
            self.wf(),
        ensures
            r == self@.len(),
    {
        proof {
            self.lemma_view_facts();
        }
        self.caching.len()
    }
}

} // verus!
