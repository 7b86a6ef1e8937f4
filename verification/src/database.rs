//! A database's state beside its records.
//!
//! Everything here can be rebuilt from the records: indexes, directly addressed
//! arrays, columnar copies, views, cached plans and results. What is derived keeps
//! up with every write, and what was cached of a collection goes with the first
//! write to it.

use vstd::prelude::*;
use crate::caches::{
    holds_collection, nothing_cached, nothing_counted, rows_model, ticked, without_collection,
    CacheStats, PlanCache, PlanDecision, ResultCache, ResultEntry, Rows,
};
use crate::compiled::{no_paths_yet, CompiledPaths};
use crate::constraints::{
    batch_breach, check_batch, check_unique_constraints, constrained, stored_breach, Breach,
};
use crate::derived::{
    agrees_with, array_without, columns_without, forgetting_keeps_agreement,
    overwriting_keeps_agreement, removed_from, removing_keeps_agreement, same_elsewhere,
    stored_into, storing_keeps_agreement, watched, Derived,
};
use crate::expr::Expr;
use crate::index::{askable, evaluates, IndexModel, Keeps, Records};
use crate::matview::{after_arrival, after_departure, MaterializedView};
use crate::record::{Record, RecordModel};
use crate::strmap::StrMap;
use crate::trials::{no_trials, Trials};
use crate::unique::{Pair, UniqueConstraints};
use crate::value::{Value, ValueModel};

verus! {

/// The state of a database beside its records.
pub struct Database {
    pub derived: Derived,
    pub trials: Trials,
    pub plan_cache: PlanCache,
    pub result_cache: ResultCache,
    /// How often each collection has changed.
    pub epochs: StrMap<u64>,
    pub compiled: CompiledPaths,
    pub unique_constraints: UniqueConstraints,
    /// The field that steers where each collection's records are placed.
    pub cluster_fields: StrMap<String>,
    pub touch_sample: u32,
    pub next_txn_id: u64,
    pub delta_encoding: bool,
    pub thread_per_core: bool,
    pub join_order: bool,
    pub data_partitioning: bool,
}

/// Whether nothing was derived, cached, tried or counted yet. Such a state says nothing
/// of any records, and so agrees with whatever records there are.
pub open spec fn nothing_derived(db: Database) -> bool {
    &&& forall|c: Seq<char>| #[trigger] db.derived.indexes_of(c) == Seq::<IndexModel>::empty()
    &&& forall|c: Seq<char>| #[trigger] db.derived.array_of(c) is None
    &&& forall|c: Seq<char>| #[trigger] db.derived.columns_of(c) is None
    &&& db.derived.views.views() == Seq::<MaterializedView>::empty()
    &&& !db.derived.views.enabled()
    &&& forall|keeps: Keeps, c: Seq<char>, t: Records| #[trigger]
        agrees_with(db.derived, keeps, c, t)
    &&& db.trials@ == no_trials()
    &&& db.plan_cache.model() == nothing_cached::<PlanDecision>()
    &&& db.plan_cache.counters() == nothing_counted()
    &&& db.result_cache.model() == nothing_cached::<ResultEntry>()
    &&& db.result_cache.counters() == nothing_counted()
    &&& forall|c: Seq<char>| #[trigger] db.epochs.of(c) is None
    &&& db.compiled@ == no_paths_yet()
    &&& db.touch_sample == 0
    &&& db.next_txn_id == 1
    &&& !db.join_order
    &&& !db.data_partitioning
}

/// How often a collection has changed.
pub open spec fn epoch_of(e: StrMap<u64>, c: Seq<char>) -> u64 {
    match e.of(c) {
        Some(n) => n,
        None => 0,
    }
}

/// Whether a collection changed once between two states, and no other did.
pub open spec fn bumped(a: StrMap<u64>, b: StrMap<u64>, c: Seq<char>) -> bool {
    &&& epoch_of(b, c) == epoch_of(a, c) + 1
    &&& forall|other: Seq<char>| other != c ==> #[trigger] b.of(other) == a.of(other)
}

/// Whether nothing cached of a collection is left, and everything else is.
pub open spec fn dropped_results(a: ResultCache, b: ResultCache, c: Seq<char>) -> bool {
    &&& b.model() == without_collection(a.model(), c)
    &&& b.counters() == if holds_collection(a.model(), c) {
        CacheStats { invalidations: ticked(a.counters().invalidations), ..a.counters() }
    } else {
        a.counters()
    }
}

/// Whether a state is another but for what a change to a collection touches.
pub open spec fn changed_in(a: Database, b: Database, c: Seq<char>) -> bool {
    &&& bumped(a.epochs, b.epochs, c)
    &&& dropped_results(a.result_cache, b.result_cache, c)
    &&& b == (Database {
        derived: b.derived,
        epochs: b.epochs,
        result_cache: b.result_cache,
        ..a
    })
}

/// Whether the columnar copy of a collection can take another row.
pub open spec fn has_room(d: Derived, c: Seq<char>) -> bool {
    d.columns_of(c) matches Some(m) ==> m.ids.len() < usize::MAX
}

/// The views of a collection, by where they stand, are the same in two states.
pub open spec fn same_views(a: Seq<MaterializedView>, b: Seq<MaterializedView>, c: Seq<char>) -> bool {
    &&& a.len() == b.len()
    &&& forall|i: int|
        0 <= i < b.len() && (#[trigger] b[i]).source() == c ==> a[i] == b[i]
}

/// A collection nothing was written to is in agreement as it was.
proof fn lemma_elsewhere(a: Derived, b: Derived, keeps: Keeps, c: Seq<char>, other: Seq<char>, t: Records)
    requires
        same_elsewhere(a, b, c),
        other != c,
        same_views(a.views.views(), b.views.views(), other),
        agrees_with(a, keeps, other, t),
    ensures
        agrees_with(b, keeps, other, t),
{
    assert(b.indexes_of(other) == a.indexes_of(other));
    let (x, y) = (a.views.views(), b.views.views());
    assert forall|i: int| 0 <= i < y.len() && (#[trigger] y[i]).source()
        == other implies crate::derived::view_faithful(y[i], t) by {
        assert(x[i] == y[i]);
    }
}

impl Database {
    pub open spec fn wf(&self) -> bool {
        &&& self.derived.wf()
        &&& self.trials@.ok()
        &&& self.plan_cache.wf()
        &&& self.result_cache.wf()
        &&& self.epochs.wf()
        &&& self.unique_constraints.wf()
        &&& self.cluster_fields.wf()
        &&& self.next_txn_id >= 1
    }

    /// A database nothing was derived for yet. Both caches are switched off, and
    /// delta encoding is on.
    pub fn new() -> (db: Database)
        ensures
            db.wf(),
            nothing_derived(db),
            db.unique_constraints@ == Set::<Pair>::empty(),
            forall|c: Seq<char>| #[trigger] db.cluster_fields.of(c) is None,
            db.delta_encoding,
            !db.thread_per_core,
    {
        let db = Database {
            derived: Derived::new(),
            trials: Trials::new(),
            plan_cache: PlanCache::new(0),
            result_cache: ResultCache::new(0),
            epochs: StrMap::new(),
            compiled: CompiledPaths::new(),
            unique_constraints: UniqueConstraints::default(),
            cluster_fields: StrMap::new(),
            touch_sample: 0,
            next_txn_id: 1,
            delta_encoding: true,
            thread_per_core: false,
            join_order: false,
            data_partitioning: false,
        };
        assert forall|keeps: Keeps, c: Seq<char>, t: Records| #[trigger]
            agrees_with(db.derived, keeps, c, t) by {
            assert(db.derived.indexes_of(c) == Seq::<IndexModel>::empty());
        }
        db
    }

    // -- epochs --------------------------------------------------------------

    /// How often a collection has changed.
    pub fn epoch(&self, collection: &str) -> (n: u64)
        requires
            self.epochs.wf(),
        ensures
            n == epoch_of(self.epochs, collection@),
    {
        match self.epochs.get(collection) {
            Some(n) => *n,
            None => 0,
        }
    }

    /// A collection changed: nothing that was cached of it holds any more.
    pub fn bump_epoch(&mut self, collection: &str)
        requires
            old(self).wf(),
            epoch_of(old(self).epochs, collection@) < u64::MAX,
        ensures
            final(self).wf(),
            changed_in(*old(self), *final(self), collection@),
            final(self).derived == old(self).derived,
    {
        let n: u64 = self.epoch(collection);
        self.epochs.put(collection, n + 1);
        self.result_cache.invalidate_collection(collection);
    }
}

/// Whether every collection but one that was in agreement still is.
pub open spec fn agrees_elsewhere(a: Derived, b: Derived, c: Seq<char>) -> bool {
    forall|keeps: Keeps, other: Seq<char>, t: Records|
        other != c && #[trigger] agrees_with(a, keeps, other, t) ==> agrees_with(b, keeps, other, t)
}

/// Whether a record's arrival leaves a collection in agreement.
pub open spec fn agrees_with_arrival<E: Fn(&Expr, &Record) -> bool>(
    a: Derived,
    b: Derived,
    eval: E,
    c: Seq<char>,
    id: u64,
    r: RecordModel,
) -> bool {
    forall|keeps: Keeps, t: Records|
        #![trigger evaluates(eval, keeps), agrees_with(a, keeps, c, t)]
        evaluates(eval, keeps) && agrees_with(a, keeps, c, t) && !t.dom().contains(id)
            ==> agrees_with(b, keeps, c, t.insert(id, r))
}

/// Whether a record's replacement leaves a collection in agreement, given what the
/// record there was held, where that had to be known.
pub open spec fn agrees_with_replacement<E: Fn(&Expr, &Record) -> bool>(
    a: Derived,
    b: Derived,
    eval: E,
    c: Seq<char>,
    id: u64,
    was: Option<RecordModel>,
    r: RecordModel,
) -> bool {
    forall|keeps: Keeps, t: Records|
        #![trigger evaluates(eval, keeps), agrees_with(a, keeps, c, t)]
        evaluates(eval, keeps) && agrees_with(a, keeps, c, t) && told_truly(a, c, t, id, was)
            ==> agrees_with(b, keeps, c, t.insert(id, r))
}

/// Whether a record's going leaves a collection in agreement.
pub open spec fn agrees_with_departure<E: Fn(&Expr, &Record) -> bool>(
    a: Derived,
    b: Derived,
    eval: E,
    c: Seq<char>,
    id: u64,
    was: Option<RecordModel>,
) -> bool {
    forall|keeps: Keeps, t: Records|
        #![trigger evaluates(eval, keeps), agrees_with(a, keeps, c, t)]
        evaluates(eval, keeps) && agrees_with(a, keeps, c, t) && told_truly(a, c, t, id, was)
            ==> agrees_with(b, keeps, c, t.remove(id))
}

/// Whether what is said of the record there was is so. Nothing need be said where
/// nothing derived has to know.
pub open spec fn told_truly(
    d: Derived,
    c: Seq<char>,
    t: Records,
    id: u64,
    was: Option<RecordModel>,
) -> bool {
    match was {
        Some(r) => t.dom().contains(id) && t[id] == r,
        None => !t.dom().contains(id) || !must_read(d, c),
    }
}

/// Whether a write to a collection has to know what it overwrites.
pub open spec fn must_read(d: Derived, c: Seq<char>) -> bool {
    d.indexes_of(c).len() > 0 || watched(d.views, c)
}

pub open spec fn optional_record(r: Option<&Record>) -> Option<RecordModel> {
    match r {
        Some(r) => Some(r.model()),
        None => None,
    }
}

pub proof fn lemma_arrival_elsewhere(a: Derived, b: Derived, c: Seq<char>, r: RecordModel)
    requires
        same_elsewhere(a, b, c),
        crate::derived::views_after(a.views.views(), c, r, b.views.views()),
    ensures
        agrees_elsewhere(a, b, c),
{
    let (x, y) = (a.views.views(), b.views.views());
    assert forall|keeps: Keeps, other: Seq<char>, t: Records|
        other != c && #[trigger] agrees_with(a, keeps, other, t) implies agrees_with(
        b,
        keeps,
        other,
        t,
    ) by {
        assert forall|i: int| 0 <= i < y.len() && (#[trigger] y[i]).source() == other implies x[i]
            == y[i] by {
            assert(after_arrival(x[i], y[i], c, r));
        }
        lemma_elsewhere(a, b, keeps, c, other, t);
    }
}

proof fn lemma_departure_elsewhere(a: Derived, b: Derived, c: Seq<char>, r: RecordModel)
    requires
        same_elsewhere(a, b, c),
        crate::derived::views_without(a.views.views(), c, r, b.views.views()),
    ensures
        agrees_elsewhere(a, b, c),
{
    let (x, y) = (a.views.views(), b.views.views());
    assert forall|keeps: Keeps, other: Seq<char>, t: Records|
        other != c && #[trigger] agrees_with(a, keeps, other, t) implies agrees_with(
        b,
        keeps,
        other,
        t,
    ) by {
        assert forall|i: int| 0 <= i < y.len() && (#[trigger] y[i]).source() == other implies x[i]
            == y[i] by {
            assert(after_departure(x[i], y[i], c, r));
        }
        lemma_elsewhere(a, b, keeps, c, other, t);
    }
}

/// The integer a record is placed by, if its field holds one.
pub open spec fn placed_by(r: RecordModel, field: Seq<char>) -> Option<i64> {
    match crate::record::field_of(r, field) {
        Some(ValueModel::I64(v)) => Some(v),
        Some(ValueModel::U64(v)) => if v <= i64::MAX {
            Some(v as i64)
        } else {
            None
        },
        _ => None,
    }
}

/// The integer a record contributes to where it is placed, if any.
pub fn cluster_key(field: &str, rec: &Record) -> (r: Option<i64>)
    ensures
        r == placed_by(rec.model(), field@),
{
    match rec.get(field) {
        Some(Value::I64(v)) => Some(*v),
        Some(Value::U64(v)) => if *v <= 9223372036854775807 {
            Some(*v as i64)
        } else {
            None
        },
        _ => None,
    }
}

impl Database {
    // -- writes --------------------------------------------------------------

    /// Whether a record may be inserted, and if so by what integer it is placed.
    /// `held` is what the collection holds: it is asked only where a constrained field
    /// has lost its index, which [`Database::unguarded_fields`] tells.
    pub fn prepare_insert(
        &self,
        collection: &str,
        held: &Rows,
        rec: &Record,
        stored: &Record,
    ) -> (r: Result<Option<i64>, Breach>)
        requires
            self.wf(),
        ensures
            match stored_breach(
                self.derived.indexes_of(collection@),
                rows_model(held@),
                constrained(self.unique_constraints, collection@),
                None,
                stored.model(),
            ) {
                Some(m) => r matches Err(b) && b@ == m,
                None => r == Ok::<Option<i64>, Breach>(
                    match self.cluster_fields.of(collection@) {
                        Some(f) => placed_by(rec.model(), f@),
                        None => None,
                    },
                ),
            },
    {
        if let Some(b) = check_unique_constraints(
            &self.unique_constraints,
            &self.derived,
            collection,
            held,
            None,
            stored,
        ) {
            return Err(b);
        }
        match self.cluster_fields.get(collection) {
            Some(f) => Ok(cluster_key(f.as_str(), rec)),
            None => Ok(None),
        }
    }

    /// Whether a record may replace the one of its id. `held` is what the collection
    /// holds, for a constrained field that has lost its index.
    pub fn prepare_update(
        &self,
        collection: &str,
        held: &Rows,
        id: u64,
        stored: &Record,
    ) -> (r: Option<Breach>)
        requires
            self.wf(),
        ensures
            match stored_breach(
                self.derived.indexes_of(collection@),
                rows_model(held@),
                constrained(self.unique_constraints, collection@),
                Some(id),
                stored.model(),
            ) {
                Some(m) => r matches Some(b) && b@ == m,
                None => r is None,
            },
    {
        check_unique_constraints(
            &self.unique_constraints,
            &self.derived,
            collection,
            held,
            Some(id),
            stored,
        )
    }

    /// Whether records may be inserted together. `held` is what the collection holds,
    /// for a constrained field that has lost its index.
    pub fn prepare_batch(&self, collection: &str, held: &Rows, stored: &Rows) -> (r: Option<Breach>)
        requires
            self.wf(),
        ensures
            match batch_breach(
                self.derived.indexes_of(collection@),
                rows_model(held@),
                constrained(self.unique_constraints, collection@),
                rows_model(stored@),
                stored@.len() as int,
            ) {
                Some(m) => r matches Some(b) && b@ == m,
                None => r is None,
            },
    {
        check_batch(&self.unique_constraints, &self.derived, collection, held, stored)
    }

    /// Whether a write to a collection has to read what it is about to overwrite.
    pub fn needs_old_record(&self, collection: &str) -> (r: bool)
        requires
            self.wf(),
        ensures
            r == must_read(self.derived, collection@),
    {
        self.derived.needs_old_record(collection)
    }

    /// A record was inserted: everything derived takes it in, and nothing cached
    /// of its collection holds any more.
    pub fn insert<E: Fn(&Expr, &Record) -> bool>(
        &mut self,
        collection: &str,
        id: u64,
        stored: &Record,
        eval: &E,
    )
        requires
            old(self).wf(),
            askable(*eval),
            epoch_of(old(self).epochs, collection@) < u64::MAX,
        ensures
            final(self).wf(),
            changed_in(*old(self), *final(self), collection@),
            forall|keeps: Keeps| #[trigger]
                evaluates(*eval, keeps) ==> stored_into(
                    old(self).derived,
                    final(self).derived,
                    keeps,
                    collection@,
                    id,
                    stored.model(),
                ),
            final(self).derived.views.enabled() == old(self).derived.views.enabled(),
            same_elsewhere(old(self).derived, final(self).derived, collection@),
            agrees_elsewhere(old(self).derived, final(self).derived, collection@),
            has_room(old(self).derived, collection@) ==> agrees_with_arrival(
                old(self).derived,
                final(self).derived,
                *eval,
                collection@,
                id,
                stored.model(),
            ),
    {
        let ghost a = self.derived;
        self.derived.reindex_insert(collection, id, stored, eval);
        let ghost b = self.derived;
        self.bump_epoch(collection);
        proof {
            lemma_arrival_elsewhere(a, b, collection@, stored.model());
            if has_room(a, collection@) {
                assert forall|keeps: Keeps, t: Records|
                    #![trigger evaluates(*eval, keeps), agrees_with(a, keeps, collection@, t)]
                    evaluates(*eval, keeps) && agrees_with(a, keeps, collection@, t)
                        && !t.dom().contains(id) implies agrees_with(
                    b,
                    keeps,
                    collection@,
                    t.insert(id, stored.model()),
                ) by {
                    storing_keeps_agreement(a, b, keeps, collection@, t, id, stored.model());
                }
            }
        }
    }

    /// A record was replaced. `was` is what there was, where it had to be read.
    pub fn update<E: Fn(&Expr, &Record) -> bool>(
        &mut self,
        collection: &str,
        id: u64,
        was: Option<&Record>,
        stored: &Record,
        eval: &E,
    )
        requires
            old(self).wf(),
            askable(*eval),
            epoch_of(old(self).epochs, collection@) < u64::MAX,
        ensures
            final(self).wf(),
            changed_in(*old(self), *final(self), collection@),
            forall|keeps: Keeps| #[trigger]
                evaluates(*eval, keeps) ==> match was {
                    Some(w) => replaced_in(
                        old(self).derived,
                        final(self).derived,
                        keeps,
                        collection@,
                        id,
                        w.model(),
                        stored.model(),
                    ),
                    None => stored_into(
                        old(self).derived,
                        final(self).derived,
                        keeps,
                        collection@,
                        id,
                        stored.model(),
                    ),
                },
            final(self).derived.views.enabled() == old(self).derived.views.enabled(),
            same_elsewhere(old(self).derived, final(self).derived, collection@),
            agrees_elsewhere(old(self).derived, final(self).derived, collection@),
            has_room(old(self).derived, collection@) ==> agrees_with_replacement(
                old(self).derived,
                final(self).derived,
                *eval,
                collection@,
                id,
                optional_record(was),
                stored.model(),
            ),
    {
        let ghost a = self.derived;
        if let Some(w) = was {
            self.derived.reindex_remove(collection, id, w, eval);
        }
        let ghost m = self.derived;
        self.derived.reindex_insert(collection, id, stored, eval);
        let ghost b = self.derived;
        self.bump_epoch(collection);
        proof {
            lemma_arrival_elsewhere(m, b, collection@, stored.model());
            if let Some(w) = was {
                lemma_departure_elsewhere(a, m, collection@, w.model());
                assert forall|keeps: Keeps| #[trigger]
                    evaluates(*eval, keeps) implies replaced_in(
                    a,
                    b,
                    keeps,
                    collection@,
                    id,
                    w.model(),
                    stored.model(),
                ) by {
                    assert(removed_from(a, m, keeps, collection@, id, w.model()));
                    assert(stored_into(m, b, keeps, collection@, id, stored.model()));
                }
                assert forall|keeps: Keeps, other: Seq<char>, t: Records|
                    other != collection@ && #[trigger] agrees_with(
                        a,
                        keeps,
                        other,
                        t,
                    ) implies agrees_with(b, keeps, other, t) by {
                    assert(agrees_with(m, keeps, other, t));
                }
                assert forall|other: Seq<char>| other != collection@ implies {
                    &&& #[trigger] b.indexes_of(other) == a.indexes_of(other)
                    &&& b.array_of(other) == a.array_of(other)
                    &&& b.columns_of(other) == a.columns_of(other)
                } by {
                    assert(m.indexes_of(other) == a.indexes_of(other));
                }
            }
            if has_room(a, collection@) {
                assert(has_room(m, collection@));
                assert forall|keeps: Keeps, t: Records|
                    #![trigger evaluates(*eval, keeps), agrees_with(a, keeps, collection@, t)]
                    evaluates(*eval, keeps) && agrees_with(a, keeps, collection@, t) && told_truly(
                        a,
                        collection@,
                        t,
                        id,
                        optional_record(was),
                    ) implies agrees_with(b, keeps, collection@, t.insert(id, stored.model())) by {
                    match was {
                        Some(w) => {
                            removing_keeps_agreement(a, m, keeps, collection@, t, id);
                            storing_keeps_agreement(
                                m,
                                b,
                                keeps,
                                collection@,
                                t.remove(id),
                                id,
                                stored.model(),
                            );
                            assert(t.remove(id).insert(id, stored.model()) =~= t.insert(
                                id,
                                stored.model(),
                            ));
                        },
                        None => if t.dom().contains(id) {
                            overwriting_keeps_agreement(
                                a,
                                b,
                                keeps,
                                collection@,
                                t,
                                id,
                                stored.model(),
                            );
                        } else {
                            storing_keeps_agreement(
                                a,
                                b,
                                keeps,
                                collection@,
                                t,
                                id,
                                stored.model(),
                            );
                        },
                    }
                }
            }
        }
    }

    /// A record was deleted. `was` is what there was, where it had to be read.
    /// What is kept by id alone is told in any case.
    pub fn delete<E: Fn(&Expr, &Record) -> bool>(
        &mut self,
        collection: &str,
        id: u64,
        was: Option<&Record>,
        eval: &E,
    )
        requires
            old(self).wf(),
            askable(*eval),
            epoch_of(old(self).epochs, collection@) < u64::MAX,
        ensures
            final(self).wf(),
            changed_in(*old(self), *final(self), collection@),
            forall|keeps: Keeps| #[trigger]
                evaluates(*eval, keeps) ==> match was {
                    Some(w) => removed_from(
                        old(self).derived,
                        final(self).derived,
                        keeps,
                        collection@,
                        id,
                        w.model(),
                    ),
                    None => forgotten_in(old(self).derived, final(self).derived, collection@, id),
                },
            final(self).derived.views.enabled() == old(self).derived.views.enabled(),
            same_elsewhere(old(self).derived, final(self).derived, collection@),
            agrees_elsewhere(old(self).derived, final(self).derived, collection@),
            agrees_with_departure(
                old(self).derived,
                final(self).derived,
                *eval,
                collection@,
                id,
                optional_record(was),
            ),
    {
        let ghost a = self.derived;
        match was {
            Some(w) => self.derived.reindex_remove(collection, id, w, eval),
            None => self.derived.forget_row(collection, id),
        }
        let ghost b = self.derived;
        self.bump_epoch(collection);
        proof {
            match was {
                Some(w) => {
                    lemma_departure_elsewhere(a, b, collection@, w.model());
                },
                None => {
                    assert forall|keeps: Keeps, other: Seq<char>, t: Records|
                        other != collection@ && #[trigger] agrees_with(
                            a,
                            keeps,
                            other,
                            t,
                        ) implies agrees_with(b, keeps, other, t) by {
                        lemma_elsewhere(a, b, keeps, collection@, other, t);
                    }
                },
            }
            assert forall|keeps: Keeps, t: Records|
                #![trigger evaluates(*eval, keeps), agrees_with(a, keeps, collection@, t)]
                evaluates(*eval, keeps) && agrees_with(a, keeps, collection@, t) && told_truly(
                    a,
                    collection@,
                    t,
                    id,
                    optional_record(was),
                ) implies agrees_with(b, keeps, collection@, t.remove(id)) by {
                match was {
                    Some(w) => {
                        removing_keeps_agreement(a, b, keeps, collection@, t, id);
                    },
                    None => {
                        lemma_forgotten(a, b, keeps, collection@, t, id);
                    },
                }
            }
        }
    }
}

/// Whether a state is another after a record was replaced.
pub open spec fn replaced_in(
    a: Derived,
    b: Derived,
    keeps: Keeps,
    c: Seq<char>,
    id: u64,
    was: RecordModel,
    r: RecordModel,
) -> bool {
    exists|m: Derived|
        #![trigger removed_from(a, m, keeps, c, id, was)]
        removed_from(a, m, keeps, c, id, was) && stored_into(m, b, keeps, c, id, r)
}

/// Whether a state is another after what is kept by id alone was told that a
/// record went.
pub open spec fn forgotten_in(a: Derived, b: Derived, c: Seq<char>, id: u64) -> bool {
    &&& b.indexes_of(c) == a.indexes_of(c)
    &&& b.array_of(c) == array_without(a.array_of(c), id)
    &&& b.columns_of(c) == columns_without(a.columns_of(c), id)
    &&& b.views == a.views
}

/// Telling what is kept by id alone that a record went that was not there, or
/// whose contents nothing has to know, leaves a collection in agreement.
proof fn lemma_forgotten(a: Derived, b: Derived, keeps: Keeps, c: Seq<char>, t: Records, id: u64)
    requires
        a.wf(),
        agrees_with(a, keeps, c, t),
        forgotten_in(a, b, c, id),
        !t.dom().contains(id) || !must_read(a, c),
    ensures
        agrees_with(b, keeps, c, t.remove(id)),
{
    if !must_read(a, c) {
        forgetting_keeps_agreement(a, b, keeps, c, t, id);
    } else {
        assert(t.remove(id) =~= t);
        if let Some(x) = a.array_of(c) {
            assert(!x.slots.dom().contains(id));
            assert(x.slots.remove(id) =~= x.slots);
            assert(b.array_of(c) == a.array_of(c));
        }
        if let Some(m) = a.columns_of(c) {
            assert(!m.rows.dom().contains(id));
        }
    }
}

// -- what a write means to a reader -----------------------------------------------------

/// A write to a collection is noticed: nothing that was cached of it is left, however it
/// was asked, its epoch is another, and every other collection is as it was.
pub proof fn a_write_is_noticed(a: Database, b: Database, c: Seq<char>, key: u64, other: Seq<char>)
    requires
        changed_in(a, b, c),
        other != c,
    ensures
        b.result_cache.model().entries.contains_key(key)
            ==> b.result_cache.model().entries[key].source() != c,
        a.result_cache.model().entries.contains_key(key)
            && a.result_cache.model().entries[key].source() != c
            ==> b.result_cache.model().entries.contains_key(key)
            && b.result_cache.model().entries[key] == a.result_cache.model().entries[key],
        epoch_of(b.epochs, c) > epoch_of(a.epochs, c),
        epoch_of(b.epochs, other) == epoch_of(a.epochs, other),
        b.plan_cache == a.plan_cache,
        b.trials == a.trials,
        b.unique_constraints == a.unique_constraints,
{
    assert(b.epochs.of(other) == a.epochs.of(other));
}

/// What a write overwrites is read first where an index lists it or a view has taken it
/// in, and nowhere else.
pub proof fn what_is_overwritten_is_read_where_it_is_listed(d: Derived, c: Seq<char>)
    requires
        d.wf(),
    ensures
        must_read(d, c) <==> d.indexes_of(c).len() > 0 || exists|i: int|
            0 <= i < d.views.views().len() && (#[trigger] d.views.views()[i]).source() == c,
{
}

/// A record is placed by the whole number its field holds, signed or not, and by nothing
/// where the field holds none or one too large.
pub proof fn a_record_is_placed_by_its_number(r: RecordModel, field: Seq<char>, k: i64)
    ensures
        placed_by(r, field) == Some(k) <==> match crate::record::field_of(r, field) {
            Some(ValueModel::I64(v)) => v == k,
            Some(ValueModel::U64(v)) => v as int == k as int,
            _ => false,
        },
{
}

} // verus!
