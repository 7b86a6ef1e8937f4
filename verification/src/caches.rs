//! Plan and result caches.
//!
//! Both hold a bounded number of entries by key and let the oldest go first. A
//! result is kept with the epoch of its collection and is served only at that
//! epoch, so a cached result can never be stale.

use std::collections::HashMap;
use vstd::prelude::*;
use vstd::std_specs::hash::*;
use vstd::utf8::*;
use crate::number::{add_capped, capped};
use crate::record::{Record, RecordModel};
use crate::text::str_eq;
use crate::value::ValueModel;

verus! {

broadcast use vstd::std_specs::hash::group_hash_axioms;

/// A counter one higher. The largest stays.
pub open spec fn ticked(n: u64) -> u64 {
    if n == u64::MAX {
        n
    } else {
        (n + 1) as u64
    }
}

/// A counter `by` higher, no more than the largest.
pub open spec fn raised_by(n: u64, by: nat) -> u64 {
    if n + by >= u64::MAX {
        u64::MAX
    } else {
        (n + by) as u64
    }
}

pub fn tick(n: u64) -> (r: u64)
    ensures
        r == ticked(n),
{
    if n == u64::MAX {
        n
    } else {
        n + 1
    }
}

/// How a cache has done.
#[derive(Clone, Copy, Debug, PartialEq, Eq, Structural)]
pub struct CacheStats {
    pub hits: u64,
    pub misses: u64,
    pub evictions: u64,
    pub invalidations: u64,
}

impl Default for CacheStats {
    fn default() -> (s: CacheStats)
        ensures
            s == (CacheStats { hits: 0, misses: 0, evictions: 0, invalidations: 0 }),
    {
        CacheStats { hits: 0, misses: 0, evictions: 0, invalidations: 0 }
    }
}

impl CacheStats {
    /// Hits out of probes, once there was a probe.
    pub fn hit_rate(&self) -> (r: Option<(u64, u64)>)
        ensures
            r == if self.hits == 0 && self.misses == 0 {
                None
            } else {
                Some((self.hits, raised_by(self.hits, self.misses as nat)))
            },
    {
        if self.hits == 0 && self.misses == 0 {
            None
        } else if self.misses >= u64::MAX - self.hits {
            Some((self.hits, u64::MAX))
        } else {
            Some((self.hits, self.hits + self.misses))
        }
    }
}

// -- a bounded map, the oldest entry first -----------------------------------

/// Entries by key, with the order they first came in.
pub struct Fifo<V> {
    entries: HashMap<u64, V>,
    order: Vec<u64>,
    capacity: usize,
}

/// What a [`Fifo`] holds.
pub struct FifoModel<V> {
    pub entries: Map<u64, V>,
    pub order: Seq<u64>,
    pub capacity: nat,
}

/// What a cache that is switched off holds.
pub open spec fn nothing_cached<V>() -> FifoModel<V> {
    FifoModel { entries: Map::empty(), order: Seq::empty(), capacity: 0 }
}

/// What a cache nobody asked has counted.
pub open spec fn nothing_counted() -> CacheStats {
    CacheStats { hits: 0, misses: 0, evictions: 0, invalidations: 0 }
}

/// Whether every entry stands in the order once, and no more are held than fit.
pub open spec fn fifo_ok<V>(m: FifoModel<V>) -> bool {
    &&& m.order.no_duplicates()
    &&& forall|k: u64| #[trigger] m.order.contains(k) == m.entries.contains_key(k)
    &&& m.order.len() <= m.capacity
}

/// The `n` oldest entries gone.
pub open spec fn evicted<V>(m: FifoModel<V>, n: int) -> FifoModel<V> {
    FifoModel {
        entries: m.entries.restrict(m.order.skip(n).to_set()),
        order: m.order.skip(n),
        capacity: m.capacity,
    }
}

/// How many entries are too many.
pub open spec fn excess<V>(m: FifoModel<V>) -> nat {
    if m.order.len() > m.capacity {
        (m.order.len() - m.capacity) as nat
    } else {
        0
    }
}

/// The oldest entries gone until the rest fit.
pub open spec fn trimmed<V>(m: FifoModel<V>) -> FifoModel<V> {
    evicted(m, excess(m) as int)
}

/// An entry put in: in place of its predecessor, or as the newest.
pub open spec fn with_entry<V>(m: FifoModel<V>, key: u64, v: V) -> FifoModel<V> {
    FifoModel {
        entries: m.entries.insert(key, v),
        order: if m.order.contains(key) {
            m.order
        } else {
            m.order.push(key)
        },
        capacity: m.capacity,
    }
}

/// `s` without `key`.
pub open spec fn without_key(s: Seq<u64>, key: u64) -> Seq<u64>
    decreases s.len(),
{
    if s.len() == 0 {
        Seq::empty()
    } else if s.last() == key {
        without_key(s.drop_last(), key)
    } else {
        without_key(s.drop_last(), key).push(s.last())
    }
}

proof fn lemma_without_key(s: Seq<u64>, key: u64)
    ensures
        forall|k: u64| #[trigger] without_key(s, key).contains(k) == (s.contains(k) && k != key),
        s.no_duplicates() ==> without_key(s, key).no_duplicates(),
        without_key(s, key).len() <= s.len(),
    decreases s.len(),
{
    if s.len() > 0 {
        let rest = s.drop_last();
        lemma_without_key(rest, key);
        let kept = without_key(rest, key);
        let all = without_key(s, key);
        assert forall|k: u64| #[trigger] all.contains(k) == (s.contains(k) && k != key) by {
            if kept.contains(k) {
                let i = choose|i: int| 0 <= i < kept.len() && kept[i] == k;
                assert(all[i] == k);
            }
            if rest.contains(k) {
                let i = choose|i: int| 0 <= i < rest.len() && rest[i] == k;
                assert(s[i] == k);
            }
            if s.last() == k && k != key {
                assert(all[kept.len() as int] == k);
                assert(s[s.len() - 1] == k);
            }
            if s.contains(k) && k != s.last() {
                let i = choose|i: int| 0 <= i < s.len() && s[i] == k;
                assert(rest[i] == k);
            }
            if all.contains(k) {
                let i = choose|i: int| 0 <= i < all.len() && all[i] == k;
                if i < kept.len() {
                    assert(kept[i] == k);
                }
            }
        }
        if s.no_duplicates() {
            assert(rest.no_duplicates());
            if s.last() != key {
                assert forall|i: int, j: int|
                    0 <= i < all.len() && 0 <= j < all.len() && i != j implies all[i] != all[j] by {
                    if j == kept.len() {
                        assert(kept.contains(all[i]));
                        let n = choose|n: int| 0 <= n < rest.len() && rest[n] == all[i];
                        assert(s[n] == all[i]);
                    } else if i == kept.len() {
                        assert(kept.contains(all[j]));
                        let n = choose|n: int| 0 <= n < rest.len() && rest[n] == all[j];
                        assert(s[n] == all[j]);
                    } else {
                        assert(kept[i] != kept[j]);
                    }
                }
            }
        }
    }
}

/// An entry taken out.
pub open spec fn without_entry<V>(m: FifoModel<V>, key: u64) -> FifoModel<V> {
    FifoModel {
        entries: m.entries.remove(key),
        order: without_key(m.order, key),
        capacity: m.capacity,
    }
}

impl<V> View for Fifo<V> {
    type V = FifoModel<V>;

    closed spec fn view(&self) -> FifoModel<V> {
        FifoModel { entries: self.entries@, order: self.order@, capacity: self.capacity as nat }
    }
}

/// Whether order and entries agree.
spec fn paired<V>(entries: Map<u64, V>, order: Seq<u64>) -> bool {
    &&& order.no_duplicates()
    &&& forall|k: u64| #[trigger] order.contains(k) == entries.contains_key(k)
}

proof fn lemma_drop_oldest<V>(entries: Map<u64, V>, order: Seq<u64>)
    requires
        paired(entries, order),
        order.len() > 0,
    ensures
        paired(entries.remove(order[0]), order.drop_first()),
        entries.remove(order[0]) == entries.restrict(order.drop_first().to_set()),
{
    let rest = order.drop_first();
    let left = entries.remove(order[0]);
    assert forall|k: u64| #[trigger] rest.contains(k) == left.contains_key(k) by {
        if rest.contains(k) {
            let i = choose|i: int| 0 <= i < rest.len() && rest[i] == k;
            assert(order[i + 1] == k);
            assert(order[0] != order[i + 1]);
            assert(order.contains(k));
        }
        if left.contains_key(k) {
            assert(order.contains(k));
            let i = choose|i: int| 0 <= i < order.len() && order[i] == k;
            assert(rest[i - 1] == k);
        }
    }
    assert forall|i: int, j: int| 0 <= i < rest.len() && 0 <= j < rest.len() && i != j implies rest[i]
        != rest[j] by {
        assert(rest[i] == order[i + 1] && rest[j] == order[j + 1]);
    }
    assert(left =~= entries.restrict(rest.to_set()));
}

impl<V> Fifo<V> {
    pub open spec fn wf(&self) -> bool {
        fifo_ok(self@)
    }

    pub fn new(capacity: usize) -> (c: Fifo<V>)
        ensures
            c.wf(),
            c@ == (FifoModel {
                entries: Map::<u64, V>::empty(),
                order: Seq::empty(),
                capacity: capacity as nat,
            }),
    {
        let c: Fifo<V> = Fifo { entries: HashMap::new(), order: Vec::new(), capacity };
        assert(c@.entries =~= Map::<u64, V>::empty());
        assert(c@.order =~= Seq::empty());
        c
    }

    pub fn capacity(&self) -> (n: usize)
        ensures
            n == self@.capacity,
    {
        self.capacity
    }

    pub fn len(&self) -> (n: usize)
        ensures
            n == self@.order.len(),
    {
        self.order.len()
    }

    /// The key that came `i`-th of those held.
    pub fn key_at(&self, i: usize) -> (k: u64)
        requires
            i < self@.order.len(),
        ensures
            k == self@.order[i as int],
    {
        self.order[i]
    }

    pub fn get(&self, key: u64) -> (r: Option<&V>)
        ensures
            match r {
                Some(v) => self@.entries.contains_key(key) && *v == self@.entries[key],
                None => !self@.entries.contains_key(key),
            },
    {
        self.entries.get(&key)
    }

    /// Let the oldest go until the rest fit. Returns how many went.
    fn trim(&mut self) -> (n: u64)
        requires
            paired(old(self)@.entries, old(self)@.order),
        ensures
            final(self)@ == trimmed(old(self)@),
            final(self).wf(),
            n == excess(old(self)@),
    {
        let ghost start = self@;
        let mut n: u64 = 0;
        let total: usize = self.order.len();
        assert(start.order.skip(0) =~= start.order);
        assert(start.entries =~= start.entries.restrict(start.order.to_set()));
        while self.order.len() > self.capacity
            invariant
                n <= start.order.len() == total,
                start.order.len() > start.capacity ==> n <= start.order.len() - start.capacity,
                start.order.len() <= start.capacity ==> n == 0,
                self.capacity == start.capacity,
                self@ == evicted(start, n as int),
                paired(self@.entries, self@.order),
            decreases self.order@.len(),
        {
            let ghost before = self@;
            proof {
                lemma_drop_oldest(before.entries, before.order);
            }
            let oldest = self.order.remove(0);
            self.entries.remove(&oldest);
            assert(self.order@ =~= before.order.drop_first());
            assert(self.entries@ =~= before.entries.remove(oldest));
            assert(self@.order =~= start.order.skip(n + 1));
            assert(self@.entries =~= start.entries.restrict(self@.order.to_set())) by {
                assert forall|k: u64| self@.order.contains(k) implies before.order.contains(k) by {
                    let i = choose|i: int| 0 <= i < self@.order.len() && self@.order[i] == k;
                    assert(before.order[i + 1] == k);
                }
            }
            n += 1;
        }
        n
    }

    /// Resize, letting the oldest go. Returns how many went.
    pub fn set_capacity(&mut self, capacity: usize) -> (n: u64)
        requires
            old(self).wf(),
        ensures
            final(self).wf(),
            final(self)@ == trimmed(FifoModel { capacity: capacity as nat, ..old(self)@ }),
            n == excess(FifoModel { capacity: capacity as nat, ..old(self)@ }),
    {
        self.capacity = capacity;
        self.trim()
    }

    /// Put an entry in. Returns how many had to go for it.
    pub fn put(&mut self, key: u64, v: V) -> (n: u64)
        requires
            old(self).wf(),
        ensures
            final(self).wf(),
            final(self)@ == trimmed(with_entry(old(self)@, key, v)),
            n == excess(with_entry(old(self)@, key, v)),
    {
        let ghost before = self@;
        let fresh = !self.entries.contains_key(&key);
        self.entries.insert(key, v);
        if fresh {
            assert(!before.order.contains(key));
            self.order.push(key);
        }
        proof {
            let order = self@.order;
            if fresh {
                assert forall|k: u64| #[trigger] order.contains(k) == self@.entries.contains_key(
                    k,
                ) by {
                    if before.order.contains(k) {
                        let i = choose|i: int| 0 <= i < before.order.len() && before.order[i] == k;
                        assert(order[i] == k);
                    }
                    if k == key {
                        assert(order[before.order.len() as int] == k);
                    }
                    if order.contains(k) {
                        let i = choose|i: int| 0 <= i < order.len() && order[i] == k;
                        if i < before.order.len() {
                            assert(before.order[i] == k);
                        }
                    }
                }
                assert(order.no_duplicates());
            } else {
                assert(before.order.contains(key));
                assert forall|k: u64| #[trigger] order.contains(k) == self@.entries.contains_key(
                    k,
                ) by {
                    assert(before.order.contains(k) == before.entries.contains_key(k));
                }
            }
            assert(self@ == with_entry(before, key, v));
        }
        self.trim()
    }

    /// Take an entry out.
    pub fn remove(&mut self, key: u64)
        requires
            old(self).wf(),
        ensures
            final(self).wf(),
            final(self)@ == without_entry(old(self)@, key),
    {
        let ghost before = self@;
        self.entries.remove(&key);
        let mut order: Vec<u64> = Vec::new();
        let mut i: usize = 0;
        while i < self.order.len()
            invariant
                i <= self.order.len(),
                self.order@ == before.order,
                order@ == without_key(before.order.take(i as int), key),
            decreases self.order.len() - i,
        {
            assert(before.order.take(i + 1).drop_last() =~= before.order.take(i as int));
            if self.order[i] != key {
                order.push(self.order[i]);
            }
            i += 1;
        }
        assert(before.order.take(i as int) =~= before.order);
        self.order = order;
        proof {
            lemma_without_key(before.order, key);
            assert forall|k: u64| #[trigger] self@.order.contains(k) == self@.entries.contains_key(
                k,
            ) by {
                assert(before.order.contains(k) == before.entries.contains_key(k));
            }
        }
    }

    pub fn clear(&mut self)
        ensures
            final(self)@ == (FifoModel {
                entries: Map::<u64, V>::empty(),
                order: Seq::empty(),
                capacity: old(self)@.capacity,
            }),
            final(self).wf(),
    {
        self.entries.clear();
        self.order.clear();
        assert(self@.entries =~= Map::<u64, V>::empty());
        assert(self@.order =~= Seq::empty());
    }
}

// -- plans -------------------------------------------------------------------

/// How the rows of a query are reached.
#[derive(Debug, PartialEq, Eq)]
pub enum AccessDecision {
    FullScan,
    IndexLookup { field: String },
    IndexRange { field: String },
    /// Any other way, by name.
    Other(String),
}

/// A decision that holds for every query of one shape, whatever its literals.
#[derive(Debug, PartialEq, Eq)]
pub struct PlanDecision {
    pub access: AccessDecision,
    pub rationale: String,
}

impl AccessDecision {
    /// The index field a decision reads through, if it reads through one.
    pub open spec fn index_field(&self) -> Option<Seq<char>> {
        match self {
            AccessDecision::IndexLookup { field } => Some(field@),
            AccessDecision::IndexRange { field } => Some(field@),
            _ => None,
        }
    }

    /// Whether two decisions are the same.
    pub open spec fn alike(&self, other: &AccessDecision) -> bool {
        match (self, other) {
            (AccessDecision::FullScan, AccessDecision::FullScan) => true,
            (
                AccessDecision::IndexLookup { field: a },
                AccessDecision::IndexLookup { field: b },
            ) => a@ == b@,
            (
                AccessDecision::IndexRange { field: a },
                AccessDecision::IndexRange { field: b },
            ) => a@ == b@,
            (AccessDecision::Other(a), AccessDecision::Other(b)) => a@ == b@,
            _ => false,
        }
    }
}

impl PlanDecision {
    /// Whether two decisions are the same.
    pub open spec fn alike(&self, other: &PlanDecision) -> bool {
        self.access.alike(&other.access) && self.rationale@ == other.rationale@
    }

    /// A copy of the decision.
    pub fn dup(&self) -> (d: PlanDecision)
        ensures
            d.alike(self),
            d.access.index_field() == self.access.index_field(),
    {
        let access = match &self.access {
            AccessDecision::FullScan => AccessDecision::FullScan,
            AccessDecision::IndexLookup { field } => AccessDecision::IndexLookup {
                field: field.clone(),
            },
            AccessDecision::IndexRange { field } => AccessDecision::IndexRange {
                field: field.clone(),
            },
            AccessDecision::Other(name) => AccessDecision::Other(name.clone()),
        };
        PlanDecision { access, rationale: self.rationale.clone() }
    }
}

/// Access decisions by query shape. Not plans: a plan holds literals and a shape
/// has them erased, so a plan found by shape could answer another query.
pub struct PlanCache {
    cache: Fifo<PlanDecision>,
    stats: CacheStats,
}

impl PlanCache {
    pub closed spec fn model(&self) -> FifoModel<PlanDecision> {
        self.cache@
    }

    pub closed spec fn counters(&self) -> CacheStats {
        self.stats
    }

    pub open spec fn wf(&self) -> bool {
        fifo_ok(self.model())
    }

    pub fn new(capacity: usize) -> (c: PlanCache)
        ensures
            c.wf(),
            c.model() == (FifoModel {
                entries: Map::<u64, PlanDecision>::empty(),
                order: Seq::empty(),
                capacity: capacity as nat,
            }),
            c.counters() == nothing_counted(),
    {
        PlanCache { cache: Fifo::new(capacity), stats: CacheStats::default() }
    }

    pub fn capacity(&self) -> (n: usize)
        ensures
            n == self.model().capacity,
    {
        self.cache.capacity()
    }

    pub fn len(&self) -> (n: usize)
        ensures
            n == self.model().order.len(),
    {
        self.cache.len()
    }

    pub fn is_empty(&self) -> (r: bool)
        ensures
            r == (self.model().order.len() == 0),
    {
        self.cache.len() == 0
    }

    pub fn stats(&self) -> (s: CacheStats)
        ensures
            s == self.counters(),
    {
        self.stats
    }

    pub fn enabled(&self) -> (r: bool)
        ensures
            r == (self.model().capacity > 0),
    {
        self.cache.capacity() > 0
    }

    /// Resize, letting the oldest go. Zero disables the cache entirely.
    pub fn set_capacity(&mut self, capacity: usize)
        requires
            old(self).wf(),
        ensures
            final(self).wf(),
            final(self).model() == trimmed(
                FifoModel { capacity: capacity as nat, ..old(self).model() },
            ),
            final(self).counters() == (CacheStats {
                evictions: raised_by(
                    old(self).counters().evictions,
                    excess(FifoModel { capacity: capacity as nat, ..old(self).model() }),
                ),
                ..old(self).counters()
            }),
    {
        let n: u64 = self.cache.set_capacity(capacity);
        self.stats.evictions = raise_by(self.stats.evictions, n);
    }

    /// The decision for a shape. A disabled cache is not probed.
    pub fn get(&mut self, shape: u64) -> (r: Option<&PlanDecision>)
        requires
            old(self).wf(),
        ensures
            final(self).wf(),
            final(self).model() == old(self).model(),
            match r {
                Some(d) => old(self).model().capacity > 0 && old(self).model().entries.contains_key(
                    shape,
                ) && *d == old(self).model().entries[shape],
                None => old(self).model().capacity == 0 || !old(self).model().entries.contains_key(shape),
            },
            final(self).counters() == if old(self).model().capacity == 0 {
                old(self).counters()
            } else if old(self).model().entries.contains_key(shape) {
                CacheStats { hits: ticked(old(self).counters().hits), ..old(self).counters() }
            } else {
                CacheStats { misses: ticked(old(self).counters().misses), ..old(self).counters() }
            },
    {
        if !self.enabled() {
            return None;
        }
        let found = self.cache.get(shape).is_some();
        if found {
            self.stats.hits = tick(self.stats.hits);
            self.cache.get(shape)
        } else {
            self.stats.misses = tick(self.stats.misses);
            None
        }
    }

    /// Keep the decision for a shape.
    pub fn insert(&mut self, shape: u64, plan: PlanDecision)
        requires
            old(self).wf(),
        ensures
            final(self).wf(),
            old(self).model().capacity == 0 ==> final(self).model() == old(self).model()
                && final(self).counters() == old(self).counters(),
            old(self).model().capacity > 0 ==> final(self).model() == trimmed(
                with_entry(old(self).model(), shape, plan),
            ) && final(self).counters() == (CacheStats {
                evictions: raised_by(
                    old(self).counters().evictions,
                    excess(with_entry(old(self).model(), shape, plan)),
                ),
                ..old(self).counters()
            }),
    {
        if !self.enabled() {
            return;
        }
        let n: u64 = self.cache.put(shape, plan);
        self.stats.evictions = raise_by(self.stats.evictions, n);
    }

    /// Drop every decision: an access path they name may no longer exist.
    pub fn clear(&mut self)
        ensures
            final(self).wf(),
            final(self).model() == (FifoModel {
                entries: Map::<u64, PlanDecision>::empty(),
                order: Seq::empty(),
                capacity: old(self).model().capacity,
            }),
            final(self).counters() == (CacheStats {
                invalidations: ticked(old(self).counters().invalidations),
                ..old(self).counters()
            }),
    {
        self.cache.clear();
        self.stats.invalidations = tick(self.stats.invalidations);
    }
}

fn raise_by(n: u64, by: u64) -> (r: u64)
    ensures
        r == raised_by(n, by as nat),
{
    if by >= u64::MAX - n {
        u64::MAX
    } else {
        n + by
    }
}

// -- results -----------------------------------------------------------------

/// Rows of a result: ids and records.
pub type Rows = Vec<(u64, Record)>;

/// What rows hold.
pub open spec fn rows_model(rows: Seq<(u64, Record)>) -> Seq<(u64, RecordModel)> {
    rows.map_values(|r: (u64, Record)| (r.0, r.1.model()))
}

/// A copy of rows.
pub fn dup_rows(rows: &Rows) -> (out: Rows)
    ensures
        rows_model(out@) == rows_model(rows@),
{
    let mut out: Rows = Vec::new();
    let mut i: usize = 0;
    while i < rows.len()
        invariant
            i <= rows.len(),
            out@.len() == i,
            forall|k: int|
                0 <= k < i ==> (#[trigger] out@[k]).0 == rows@[k].0 && out@[k].1.model()
                    == rows@[k].1.model(),
        decreases rows.len() - i,
    {
        out.push((rows[i].0, rows[i].1.dup()));
        i += 1;
    }
    assert(rows_model(out@) =~= rows_model(rows@));
    out
}

/// A kept result: what it is of, when it was true, and its rows.
pub struct ResultEntry {
    collection: String,
    epoch: u64,
    rows: Rows,
}

impl ResultEntry {
    pub closed spec fn source(&self) -> Seq<char> {
        self.collection@
    }

    pub closed spec fn epoch(&self) -> u64 {
        self.epoch
    }

    pub closed spec fn rows(&self) -> Seq<(u64, Record)> {
        self.rows@
    }
}

/// Query results by query, each good for one epoch of its collection.
pub struct ResultCache {
    cache: Fifo<ResultEntry>,
    stats: CacheStats,
}

/// What is left of a cache once one collection's results are dropped.
pub open spec fn without_collection(
    m: FifoModel<ResultEntry>,
    collection: Seq<char>,
) -> FifoModel<ResultEntry> {
    FifoModel {
        entries: m.entries.restrict(
            Set::new(|k: u64| m.entries.contains_key(k) && m.entries[k].source() != collection),
        ),
        order: kept_order(m.entries, m.order, collection),
        capacity: m.capacity,
    }
}

/// The keys of `order` whose results are not of `collection`.
pub open spec fn kept_order(
    entries: Map<u64, ResultEntry>,
    order: Seq<u64>,
    collection: Seq<char>,
) -> Seq<u64>
    decreases order.len(),
{
    if order.len() == 0 {
        Seq::empty()
    } else if entries[order.last()].source() == collection {
        kept_order(entries, order.drop_last(), collection)
    } else {
        kept_order(entries, order.drop_last(), collection).push(order.last())
    }
}

/// Whether a result of `collection` is kept.
pub open spec fn holds_collection(m: FifoModel<ResultEntry>, collection: Seq<char>) -> bool {
    exists|k: u64|
        #![trigger m.entries.contains_key(k)]
        m.entries.contains_key(k) && m.entries[k].source() == collection
}

impl ResultCache {
    pub closed spec fn model(&self) -> FifoModel<ResultEntry> {
        self.cache@
    }

    pub closed spec fn counters(&self) -> CacheStats {
        self.stats
    }

    pub open spec fn wf(&self) -> bool {
        fifo_ok(self.model())
    }

    pub fn new(capacity: usize) -> (c: ResultCache)
        ensures
            c.wf(),
            c.model() == (FifoModel {
                entries: Map::<u64, ResultEntry>::empty(),
                order: Seq::empty(),
                capacity: capacity as nat,
            }),
            c.counters() == nothing_counted(),
    {
        ResultCache { cache: Fifo::new(capacity), stats: CacheStats::default() }
    }

    pub fn capacity(&self) -> (n: usize)
        ensures
            n == self.model().capacity,
    {
        self.cache.capacity()
    }

    pub fn len(&self) -> (n: usize)
        ensures
            n == self.model().order.len(),
    {
        self.cache.len()
    }

    pub fn is_empty(&self) -> (r: bool)
        ensures
            r == (self.model().order.len() == 0),
    {
        self.cache.len() == 0
    }

    pub fn stats(&self) -> (s: CacheStats)
        ensures
            s == self.counters(),
    {
        self.stats
    }

    pub fn enabled(&self) -> (r: bool)
        ensures
            r == (self.model().capacity > 0),
    {
        self.cache.capacity() > 0
    }

    /// Resize, letting the oldest go. Zero disables the cache entirely.
    pub fn set_capacity(&mut self, capacity: usize)
        requires
            old(self).wf(),
        ensures
            final(self).wf(),
            final(self).model() == trimmed(
                FifoModel { capacity: capacity as nat, ..old(self).model() },
            ),
            final(self).counters() == (CacheStats {
                evictions: raised_by(
                    old(self).counters().evictions,
                    excess(FifoModel { capacity: capacity as nat, ..old(self).model() }),
                ),
                ..old(self).counters()
            }),
    {
        let n: u64 = self.cache.set_capacity(capacity);
        self.stats.evictions = raise_by(self.stats.evictions, n);
    }

    /// The rows kept for a query at an epoch. A result of another epoch is
    /// dropped on the spot and is a miss.
    pub fn get(&mut self, key: u64, epoch: u64) -> (r: Option<&Rows>)
        requires
            old(self).wf(),
        ensures
            final(self).wf(),
            ({
                let m = old(self).model();
                let s = old(self).counters();
                if m.capacity == 0 {
                    r is None && final(self).model() == m && final(self).counters() == s
                } else if !m.entries.contains_key(key) {
                    r is None && final(self).model() == m && final(self).counters() == (CacheStats {
                        misses: ticked(s.misses),
                        ..s
                    })
                } else if m.entries[key].epoch() != epoch {
                    r is None && final(self).model() == without_entry(m, key) && final(self).counters() == (CacheStats {
                        misses: ticked(s.misses),
                        invalidations: ticked(s.invalidations),
                        ..s
                    })
                } else {
                    r matches Some(rows) && rows@ == m.entries[key].rows() && final(self).model()
                        == m && final(self).counters() == (CacheStats { hits: ticked(s.hits), ..s })
                }
            }),
    {
        if !self.enabled() {
            return None;
        }
        let found = match self.cache.get(key) {
            Some(e) => Some(e.epoch),
            None => None,
        };
        match found {
            None => {
                self.stats.misses = tick(self.stats.misses);
                None
            },
            Some(kept) => {
                if kept == epoch {
                    self.stats.hits = tick(self.stats.hits);
                    match self.cache.get(key) {
                        Some(e) => Some(&e.rows),
                        None => None,
                    }
                } else {
                    self.cache.remove(key);
                    self.stats.misses = tick(self.stats.misses);
                    self.stats.invalidations = tick(self.stats.invalidations);
                    None
                }
            },
        }
    }

    /// Keep the rows of a query.
    pub fn insert(&mut self, key: u64, collection: &str, epoch: u64, rows: Rows)
        requires
            old(self).wf(),
        ensures
            final(self).wf(),
            old(self).model().capacity == 0 ==> final(self).model() == old(self).model()
                && final(self).counters() == old(self).counters(),
            old(self).model().capacity > 0 ==> exists|e: ResultEntry|
                #![trigger with_entry(old(self).model(), key, e)]
                {
                    &&& e.source() == collection@
                    &&& e.epoch() == epoch
                    &&& e.rows() == rows@
                    &&& final(self).model() == trimmed(with_entry(old(self).model(), key, e))
                    &&& final(self).counters() == (CacheStats {
                        evictions: raised_by(
                            old(self).counters().evictions,
                            excess(with_entry(old(self).model(), key, e)),
                        ),
                        ..old(self).counters()
                    })
                },
    {
        if !self.enabled() {
            return;
        }
        let entry = ResultEntry { collection: collection.to_owned(), epoch, rows };
        let ghost e = entry;
        let n: u64 = self.cache.put(key, entry);
        self.stats.evictions = raise_by(self.stats.evictions, n);
        assert(self.model() == trimmed(with_entry(old(self).model(), key, e)));
    }

    /// Drop every result of one collection.
    pub fn invalidate_collection(&mut self, collection: &str)
        requires
            old(self).wf(),
        ensures
            final(self).wf(),
            final(self).model() == without_collection(old(self).model(), collection@),
            final(self).counters() == if holds_collection(old(self).model(), collection@) {
                CacheStats {
                    invalidations: ticked(old(self).counters().invalidations),
                    ..old(self).counters()
                }
            } else {
                old(self).counters()
            },
    {
        let ghost m = self.model();
        let total: usize = self.cache.len();
        let mut doomed: Vec<u64> = Vec::new();
        let mut i: usize = 0;
        while i < total
            invariant
                i <= total == m.order.len(),
                self.model() == m,
                self.counters() == old(self).counters(),
                m == old(self).model(),
                fifo_ok(m),
                forall|k: u64|
                    #[trigger] doomed@.contains(k) == (m.order.take(i as int).contains(k)
                        && m.entries[k].source() == collection@),
            decreases total - i,
        {
            let key = self.cache.key_at(i);
            let ghost before = doomed@;
            assert(m.order.contains(key)) by {
                assert(m.order[i as int] == key);
            }
            let hit = match self.cache.get(key) {
                Some(e) => str_eq(e.collection.as_str(), collection),
                None => false,
            };
            if hit {
                doomed.push(key);
            }
            proof {
                let grown = m.order.take(i + 1);
                assert(grown =~= m.order.take(i as int).push(key));
                assert forall|k: u64| #[trigger] doomed@.contains(k) == (grown.contains(k)
                    && m.entries[k].source() == collection@) by {
                    lemma_push_contains(m.order.take(i as int), key, k);
                    if hit {
                        lemma_push_contains(before, key, k);
                    }
                    assert(before.contains(k) == (m.order.take(i as int).contains(k)
                        && m.entries[k].source() == collection@));
                }
            }
            i += 1;
        }
        assert(m.order.take(i as int) =~= m.order);
        let mut j: usize = 0;
        proof {
            assert(doomed@.take(0) =~= Seq::empty());
            lemma_nothing_dropped(m, doomed@.take(0));
        }
        while j < doomed.len()
            invariant
                j <= doomed.len(),
                self.wf(),
                self.counters() == old(self).counters(),
                self.model() == dropped(m, doomed@.take(j as int)),
            decreases doomed.len() - j,
        {
            proof {
                assert(doomed@.take(j + 1).drop_last() =~= doomed@.take(j as int));
            }
            self.cache.remove(doomed[j]);
            j += 1;
        }
        assert(doomed@.take(j as int) =~= doomed@);
        proof {
            lemma_dropped_all(m, doomed@, collection@);
            if doomed@.len() > 0 {
                assert(doomed@.contains(doomed@[0]));
                assert(m.order.contains(doomed@[0]));
            }
            if holds_collection(m, collection@) {
                let k = choose|k: u64|
                    #![trigger m.entries.contains_key(k)]
                    m.entries.contains_key(k) && m.entries[k].source() == collection@;
                assert(m.order.contains(k));
                assert(doomed@.contains(k));
            }
        }
        if doomed.len() > 0 {
            self.stats.invalidations = tick(self.stats.invalidations);
        }
    }

    pub fn clear(&mut self)
        ensures
            final(self).wf(),
            final(self).model() == (FifoModel {
                entries: Map::<u64, ResultEntry>::empty(),
                order: Seq::empty(),
                capacity: old(self).model().capacity,
            }),
            final(self).counters() == (CacheStats {
                invalidations: ticked(old(self).counters().invalidations),
                ..old(self).counters()
            }),
    {
        self.cache.clear();
        self.stats.invalidations = tick(self.stats.invalidations);
    }
}

proof fn lemma_push_contains(s: Seq<u64>, x: u64, k: u64)
    ensures
        s.push(x).contains(k) == (s.contains(k) || k == x),
{
    let p = s.push(x);
    if s.contains(k) {
        let i = choose|i: int| 0 <= i < s.len() && s[i] == k;
        assert(p[i] == k);
    }
    if k == x {
        assert(p[s.len() as int] == k);
    }
    if p.contains(k) {
        let i = choose|i: int| 0 <= i < p.len() && p[i] == k;
        if i < s.len() {
            assert(s[i] == k);
        }
    }
}

/// The model with several entries taken out, one after the other.
spec fn dropped<V>(m: FifoModel<V>, keys: Seq<u64>) -> FifoModel<V>
    decreases keys.len(),
{
    if keys.len() == 0 {
        m
    } else {
        without_entry(dropped(m, keys.drop_last()), keys.last())
    }
}

proof fn lemma_nothing_dropped<V>(m: FifoModel<V>, keys: Seq<u64>)
    requires
        keys.len() == 0,
    ensures
        dropped(m, keys) == m,
{
}

proof fn lemma_dropped<V>(m: FifoModel<V>, keys: Seq<u64>)
    ensures
        dropped(m, keys).capacity == m.capacity,
        dropped(m, keys).entries == m.entries.remove_keys(keys.to_set()),
        dropped(m, keys).order == keep_others(m.order, keys),
    decreases keys.len(),
{
    if keys.len() == 0 {
        assert(m.entries =~= m.entries.remove_keys(keys.to_set()));
        lemma_keep_all(m.order, keys);
    } else {
        let rest = keys.drop_last();
        let last = keys.last();
        lemma_dropped(m, rest);
        assert forall|k: u64| keys.contains(k) == (rest.contains(k) || k == last) by {
            assert(keys =~= rest.push(last));
            lemma_push_contains(rest, last, k);
        }
        assert(m.entries.remove_keys(rest.to_set()).remove(last) =~= m.entries.remove_keys(
            keys.to_set(),
        ));
        lemma_keep_more(m.order, rest, last);
        assert(keys =~= rest.push(last));
    }
}

/// The members of `s` that are not among `keys`.
spec fn keep_others(s: Seq<u64>, keys: Seq<u64>) -> Seq<u64>
    decreases s.len(),
{
    if s.len() == 0 {
        Seq::empty()
    } else if keys.contains(s.last()) {
        keep_others(s.drop_last(), keys)
    } else {
        keep_others(s.drop_last(), keys).push(s.last())
    }
}

proof fn lemma_keep_all(s: Seq<u64>, keys: Seq<u64>)
    requires
        keys.len() == 0,
    ensures
        keep_others(s, keys) == s,
    decreases s.len(),
{
    if s.len() > 0 {
        lemma_keep_all(s.drop_last(), keys);
        assert(s.drop_last().push(s.last()) =~= s);
    } else {
        assert(s =~= Seq::empty());
    }
}

proof fn lemma_keep_more(s: Seq<u64>, keys: Seq<u64>, x: u64)
    ensures
        without_key(keep_others(s, keys), x) == keep_others(s, keys.push(x)),
    decreases s.len(),
{
    if s.len() > 0 {
        let rest = s.drop_last();
        lemma_keep_more(rest, keys, x);
        lemma_push_contains(keys, x, s.last());
        if !keys.contains(s.last()) {
            let kept = keep_others(rest, keys);
            assert(kept.push(s.last()).drop_last() =~= kept);
        }
    }
}

proof fn lemma_dropped_all(m: FifoModel<ResultEntry>, doomed: Seq<u64>, collection: Seq<char>)
    requires
        fifo_ok(m),
        forall|k: u64|
            #[trigger] doomed.contains(k) == (m.order.contains(k) && m.entries[k].source()
                == collection),
    ensures
        dropped(m, doomed) == without_collection(m, collection),
{
    lemma_dropped(m, doomed);
    let w = without_collection(m, collection);
    assert forall|k: u64| m.entries.remove_keys(doomed.to_set()).contains_key(k)
        == w.entries.contains_key(k) by {
        assert(m.order.contains(k) == m.entries.contains_key(k));
        assert(doomed.contains(k) == (m.order.contains(k) && m.entries[k].source() == collection));
    }
    assert(m.entries.remove_keys(doomed.to_set()) =~= w.entries);
    lemma_kept_order(m, m.order, doomed, collection);
}

proof fn lemma_kept_order(
    m: FifoModel<ResultEntry>,
    s: Seq<u64>,
    doomed: Seq<u64>,
    collection: Seq<char>,
)
    requires
        forall|k: u64| s.contains(k) ==> #[trigger] m.order.contains(k),
        forall|k: u64|
            #[trigger] doomed.contains(k) == (m.order.contains(k) && m.entries[k].source()
                == collection),
    ensures
        keep_others(s, doomed) == kept_order(m.entries, s, collection),
    decreases s.len(),
{
    if s.len() > 0 {
        let rest = s.drop_last();
        assert forall|k: u64| rest.contains(k) implies #[trigger] m.order.contains(k) by {
            let i = choose|i: int| 0 <= i < rest.len() && rest[i] == k;
            assert(s[i] == k);
        }
        lemma_kept_order(m, rest, doomed, collection);
        assert(s.contains(s.last())) by {
            assert(s[s.len() - 1] == s.last());
        }
        assert(m.order.contains(s.last()));
        assert(doomed.contains(s.last()) == (m.entries[s.last()].source() == collection));
    }
}

/// After a collection is invalidated no result of it is kept, and every other
/// result still is.
pub proof fn invalidation_is_exact(m: FifoModel<ResultEntry>, collection: Seq<char>, key: u64)
    ensures
        without_collection(m, collection).entries.contains_key(key) == (m.entries.contains_key(key)
            && m.entries[key].source() != collection),
        without_collection(m, collection).entries.contains_key(key) ==> without_collection(
            m,
            collection,
        ).entries[key] == m.entries[key],
        !holds_collection(without_collection(m, collection), collection),
{
}

/// A full cache makes room for a new entry by letting the oldest one go, and
/// only that one.
pub proof fn the_oldest_entry_goes_first<V>(m: FifoModel<V>, key: u64, v: V)
    requires
        fifo_ok(m),
        m.capacity > 0,
        m.order.len() == m.capacity,
        !m.entries.contains_key(key),
    ensures
        trimmed(with_entry(m, key, v)).order == m.order.drop_first().push(key),
        trimmed(with_entry(m, key, v)).entries == m.entries.remove(m.order[0]).insert(key, v),
{
    let w = with_entry(m, key, v);
    assert(!m.order.contains(key));
    assert(w.order.skip(1) =~= m.order.drop_first().push(key));
    let rest = w.order.skip(1);
    let left = m.entries.remove(m.order[0]).insert(key, v);
    assert forall|k: u64| rest.contains(k) == left.contains_key(k) by {
        lemma_push_contains(m.order.drop_first(), key, k);
        assert(m.order.contains(k) == m.entries.contains_key(k));
        if m.order.drop_first().contains(k) {
            let i = choose|i: int| 0 <= i < m.order.drop_first().len() && m.order.drop_first()[i]
                == k;
            assert(m.order[i + 1] == k);
            assert(m.order[0] != m.order[i + 1]);
        }
        if m.order.contains(k) && k != m.order[0] {
            let i = choose|i: int| 0 <= i < m.order.len() && m.order[i] == k;
            assert(m.order.drop_first()[i - 1] == k);
        }
        assert(m.order.contains(m.order[0]));
    }
    assert(trimmed(w).entries =~= left);
}

// -- what results cost -------------------------------------------------------

/// What the fields of a record cost: each name and a fixed share.
pub open spec fn fields_cost(r: RecordModel) -> nat
    decreases r.len(),
{
    if r.len() == 0 {
        0
    } else {
        fields_cost(r.drop_last()) + encode_utf8(r.last().0).len() + 48
    }
}

/// What rows cost.
pub open spec fn rows_cost(rows: Seq<(u64, Record)>) -> nat
    decreases rows.len(),
{
    if rows.len() == 0 {
        0
    } else {
        rows_cost(rows.drop_last()) + fields_cost(rows.last().1.model()) + 32
    }
}

/// What the results under `keys` cost.
pub open spec fn results_cost(entries: Map<u64, ResultEntry>, keys: Seq<u64>) -> nat
    decreases keys.len(),
{
    if keys.len() == 0 {
        0
    } else {
        let e = entries[keys.last()];
        results_cost(entries, keys.drop_last()) + encode_utf8(e.source()).len() + rows_cost(
            e.rows(),
        )
    }
}

fn record_bytes(rec: &Record) -> (n: usize)
    ensures
        n == capped(fields_cost(rec.model()) as int),
{
    let ghost r = rec.model();
    let mut n: usize = 0;
    let mut i: usize = 0;
    assert(r.take(0) =~= Seq::empty());
    while i < rec.len()
        invariant
            i <= r.len(),
            r == rec.model(),
            n == capped(fields_cost(r.take(i as int)) as int),
        decreases r.len() - i,
    {
        assert(r.take(i + 1).drop_last() =~= r.take(i as int));
        n = add_capped(add_capped(n, rec.name_at(i).as_bytes().len()), 48);
        i += 1;
    }
    assert(r.take(i as int) =~= r);
    n
}

fn rows_bytes(rows: &Rows) -> (n: usize)
    ensures
        n == capped(rows_cost(rows@) as int),
{
    let ghost all = rows@;
    let mut n: usize = 0;
    let mut i: usize = 0;
    assert(all.take(0) =~= Seq::empty());
    while i < rows.len()
        invariant
            i <= rows.len(),
            all == rows@,
            n == capped(rows_cost(all.take(i as int)) as int),
        decreases rows.len() - i,
    {
        assert(all.take(i + 1).drop_last() =~= all.take(i as int));
        n = add_capped(add_capped(n, record_bytes(&rows[i].1)), 32);
        i += 1;
    }
    assert(all.take(i as int) =~= all);
    n
}

impl ResultCache {
    /// Rough memory held, no more than a `usize` holds.
    pub fn memory_bytes(&self) -> (n: usize)
        requires
            self.wf(),
        ensures
            n == capped(results_cost(self.model().entries, self.model().order) as int),
    {
        let ghost m = self.model();
        let mut n: usize = 0;
        let mut i: usize = 0;
        assert(m.order.take(0) =~= Seq::empty());
        while i < self.cache.len()
            invariant
                i <= m.order.len(),
                m == self.model(),
                fifo_ok(m),
                n == capped(results_cost(m.entries, m.order.take(i as int)) as int),
            decreases m.order.len() - i,
        {
            assert(m.order.take(i + 1).drop_last() =~= m.order.take(i as int));
            let key = self.cache.key_at(i);
            assert(m.order.contains(key)) by {
                assert(m.order[i as int] == key);
            }
            if let Some(e) = self.cache.get(key) {
                n = add_capped(
                    add_capped(n, e.collection.as_str().as_bytes().len()),
                    rows_bytes(&e.rows),
                );
            }
            i += 1;
        }
        assert(m.order.take(i as int) =~= m.order);
        n
    }
}

// -- what a cache keeps ----------------------------------------------------------

/// A cache keeps what it was last given under a key. An entry that was there keeps its
/// age and is replaced; nothing else goes unless the cache is full.
pub proof fn a_cache_keeps_what_it_was_given<V>(m: FifoModel<V>, key: u64, v: V)
    requires
        fifo_ok(m),
        m.capacity > 0,
    ensures
        ({
            let w = trimmed(with_entry(m, key, v));
            &&& fifo_ok(w)
            &&& w.capacity == m.capacity
            &&& w.entries.contains_key(key) && w.entries[key] == v
            &&& m.entries.contains_key(key) ==> w.order == m.order && w.entries == m.entries.insert(
                key,
                v,
            )
            &&& !m.entries.contains_key(key) && m.order.len() < m.capacity ==> w.order
                == m.order.push(key) && w.entries == m.entries.insert(key, v)
        }),
{
    let w = with_entry(m, key, v);
    assert(m.order.contains(key) == m.entries.contains_key(key));
    if m.entries.contains_key(key) || m.order.len() < m.capacity {
        assert(w.order.skip(0) =~= w.order);
        assert forall|k: u64| w.order.contains(k) == w.entries.contains_key(k) by {
            lemma_push_contains(m.order, key, k);
            assert(m.order.contains(k) == m.entries.contains_key(k));
        }
        assert(w.entries.restrict(w.order.to_set()) =~= w.entries);
        if !m.order.contains(key) {
            assert forall|i: int, j: int| 0 <= i < w.order.len() && 0 <= j < w.order.len() && i != j implies w.order[i]
                != w.order[j] by {
                if i == m.order.len() {
                    assert(m.order.contains(w.order[j]));
                } else if j == m.order.len() {
                    assert(m.order.contains(w.order[i]));
                }
            }
        }
    } else {
        the_oldest_entry_goes_first(m, key, v);
        let t = trimmed(w);
        let rest = m.order.drop_first();
        assert forall|k: u64| #[trigger] t.order.contains(k) == t.entries.contains_key(k) by {
            lemma_push_contains(rest, key, k);
            assert(m.order.contains(k) == m.entries.contains_key(k));
            if rest.contains(k) {
                let i = choose|i: int| 0 <= i < rest.len() && rest[i] == k;
                assert(m.order[i + 1] == k);
                assert(m.order[0] != m.order[i + 1]);
            }
            if m.order.contains(k) && k != m.order[0] {
                let i = choose|i: int| 0 <= i < m.order.len() && m.order[i] == k;
                assert(rest[i - 1] == k);
            }
            assert(m.order.contains(m.order[0]));
        }
        assert forall|i: int, j: int| 0 <= i < t.order.len() && 0 <= j < t.order.len() && i != j implies t.order[i]
            != t.order[j] by {
            if i < rest.len() {
                assert(t.order[i] == m.order[i + 1]);
                assert(m.order.contains(m.order[i + 1]));
            }
            if j < rest.len() {
                assert(t.order[j] == m.order[j + 1]);
                assert(m.order.contains(m.order[j + 1]));
            }
        }
    }
}

/// A cache made smaller keeps its newest entries, as many as fit, as they are; one made
/// larger keeps them all.
pub proof fn a_resized_cache_keeps_its_newest<V>(m: FifoModel<V>, n: nat)
    requires
        fifo_ok(m),
    ensures
        ({
            let r = FifoModel { capacity: n, ..m };
            let w = trimmed(r);
            let gone = if m.order.len() > n {
                m.order.len() - n
            } else {
                0
            };
            &&& excess(r) == gone
            &&& w.capacity == n
            &&& w.order == m.order.skip(gone)
            &&& forall|k: u64| #[trigger] w.entries.contains_key(k) <==> m.order.skip(gone).contains(k)
            &&& forall|k: u64| #[trigger] w.entries.contains_key(k) ==> w.entries[k] == m.entries[k]
        }),
{
    let gone = if m.order.len() > n {
        m.order.len() - n
    } else {
        0
    };
    let kept = m.order.skip(gone);
    assert forall|k: u64| kept.contains(k) implies m.entries.contains_key(k) by {
        let i = choose|i: int| 0 <= i < kept.len() && kept[i] == k;
        assert(m.order[i + gone] == k);
        assert(m.order.contains(k));
    }
}

/// Dropping an entry drops that entry alone.
pub proof fn dropping_an_entry_drops_no_other<V>(m: FifoModel<V>, key: u64)
    ensures
        without_entry(m, key).entries == m.entries.remove(key),
        without_entry(m, key).order == m.order.filter(|k: u64| k != key),
        without_entry(m, key).capacity == m.capacity,
    decreases m.order.len(),
{
    lemma_without_is_filter(m.order, key);
}

proof fn lemma_without_is_filter(s: Seq<u64>, key: u64)
    ensures
        without_key(s, key) == s.filter(|k: u64| k != key),
    decreases s.len(),
{
    reveal(Seq::filter);
    if s.len() > 0 {
        lemma_without_is_filter(s.drop_last(), key);
    }
}

/// A counter goes up by what it counts and stays at the largest number there is.
pub proof fn counters_count(n: u64, by: nat)
    ensures
        n < u64::MAX ==> ticked(n) == n + 1,
        ticked(u64::MAX) == u64::MAX,
        n + by <= u64::MAX ==> raised_by(n, by) == n + by,
        n + by > u64::MAX ==> raised_by(n, by) == u64::MAX,
        nothing_counted() == (CacheStats { hits: 0, misses: 0, evictions: 0, invalidations: 0 }),
{
}

/// What kept results cost adds up over their rows, and what a row costs over its fields.
pub proof fn what_results_cost_adds_up(
    entries: Map<u64, ResultEntry>,
    keys: Seq<u64>,
    key: u64,
    rows: Seq<(u64, Record)>,
    row: (u64, Record),
    r: RecordModel,
    name: Seq<char>,
    v: ValueModel,
)
    ensures
        results_cost(entries, Seq::empty()) == 0,
        results_cost(entries, keys.push(key)) == results_cost(entries, keys) + encode_utf8(
            entries[key].source(),
        ).len() + rows_cost(entries[key].rows()),
        rows_cost(Seq::empty()) == 0,
        rows_cost(rows.push(row)) == rows_cost(rows) + 32 + fields_cost(row.1.model()),
        fields_cost(Seq::empty()) == 0,
        fields_cost(r.push((name, v))) == fields_cost(r) + 48 + encode_utf8(name).len(),
{
    assert(keys.push(key).drop_last() =~= keys);
    assert(rows.push(row).drop_last() =~= rows);
    assert(r.push((name, v)).drop_last() =~= r);
}

/// A decision reads through an index where it looks one up or walks one, and two decisions
/// that are alike read through the same.
pub proof fn decisions_alike_read_through_the_same(a: AccessDecision, b: AccessDecision)
    ensures
        a.index_field() matches Some(f) ==> match a {
            AccessDecision::IndexLookup { field } => field@ == f,
            AccessDecision::IndexRange { field } => field@ == f,
            _ => false,
        },
        a is IndexLookup || a is IndexRange ==> a.index_field() is Some,
        a.alike(&a),
        a.alike(&b) == b.alike(&a),
        a.alike(&b) ==> a.index_field() == b.index_field() && (a is FullScan == b is FullScan) && (
        a is IndexRange == b is IndexRange) && (a is IndexLookup == b is IndexLookup),
{
}

} // verus!
