//! What is asked of a database as a whole: batches, transactions, a check of
//! everything derived, what the optimizer works from, and plain answers.

use vstd::prelude::*;
use crate::action::IndexKind;
use crate::applying::{resized_plans, resized_results};
use crate::caches::{rows_model, CacheStats, Rows};
use crate::database::{agrees_elsewhere, changed_in, epoch_of, lemma_arrival_elsewhere, Database};
use crate::derived::{agrees_with, same_elsewhere, stored_into, storing_keeps_agreement, Derived};
use crate::expr::Expr;
use crate::index::{askable, evaluates, Keeps, Records};
use crate::indexing::{first_named, spec_models, specs_in, specs_ordered, IndexSpec};
use crate::matview::{view_text, MaterializedView};
use crate::optimizations::{Equality, FixedCollection, FixedModel, OptContext};
use crate::planning::PlanContext;
use crate::proving::footprint;
use crate::record::Record;
use crate::rows::{ascending, RowsModel};
use crate::schema::SchemaMode;
use crate::strmap::StrMap;
use crate::structures::{
    all_indexes_cost, collections, worst_dead, Collection, CollectionModel,
};
use crate::text::joined;
use crate::transaction::{Key, Transaction, Writes};
use crate::trials::revealed;
use crate::verify::{collection_problems, divergences, DivergenceModel, VerifyReport};

verus! {

// -- batches -------------------------------------------------------------------

/// Whether a state is another after the first `n` of some records were stored, one
/// after another.
pub open spec fn batch_into(
    a: Derived,
    b: Derived,
    keeps: Keeps,
    c: Seq<char>,
    rows: RowsModel,
    n: int,
) -> bool
    decreases n,
{
    if n <= 0 {
        b == a
    } else {
        exists|m: Derived|
            #![trigger stored_into(m, b, keeps, c, rows[n - 1].0, rows[n - 1].1)]
            batch_into(a, m, keeps, c, rows, n - 1) && stored_into(
                m,
                b,
                keeps,
                c,
                rows[n - 1].0,
                rows[n - 1].1,
            )
    }
}

proof fn lemma_batch_step(
    a: Derived,
    m: Derived,
    b: Derived,
    keeps: Keeps,
    c: Seq<char>,
    rows: RowsModel,
    n: int,
)
    requires
        n > 0,
        batch_into(a, m, keeps, c, rows, n - 1),
        stored_into(m, b, keeps, c, rows[n - 1].0, rows[n - 1].1),
    ensures
        batch_into(a, b, keeps, c, rows, n),
{
}

/// Records with the first `n` of some others.
pub open spec fn with_rows(t: Records, rows: RowsModel, n: int) -> Records
    decreases n,
{
    if n <= 0 {
        t
    } else {
        with_rows(t, rows, n - 1).insert(rows[n - 1].0, rows[n - 1].1)
    }
}

/// Whether no record of a batch is there already, and none is there twice.
pub open spec fn all_new(t: Records, rows: RowsModel) -> bool {
    &&& forall|i: int| 0 <= i < rows.len() ==> !t.dom().contains((#[trigger] rows[i]).0)
    &&& forall|i: int, j: int|
        #![trigger rows[i], rows[j]]
        0 <= i < j < rows.len() ==> rows[i].0 != rows[j].0
}

/// Whether the columnar copy of a collection can take so many rows more.
pub open spec fn has_room_for(d: Derived, c: Seq<char>, n: nat) -> bool {
    d.columns_of(c) matches Some(m) ==> m.ids.len() + n <= usize::MAX
}

proof fn lemma_not_among(t: Records, rows: RowsModel, n: int)
    requires
        0 <= n < rows.len(),
        all_new(t, rows),
    ensures
        forall|k: int|
            n <= k < rows.len() ==> !with_rows(t, rows, n).dom().contains((#[trigger] rows[k]).0),
    decreases n,
{
    if n > 0 {
        lemma_not_among(t, rows, n - 1);
        assert forall|k: int| n <= k < rows.len() implies !with_rows(t, rows, n).dom().contains(
            (#[trigger] rows[k]).0,
        ) by {
            assert(rows[n - 1].0 != rows[k].0);
        }
    }
}

proof fn lemma_batch_room(a: Derived, b: Derived, keeps: Keeps, c: Seq<char>, rows: RowsModel, n: int)
    requires
        0 <= n <= rows.len(),
        batch_into(a, b, keeps, c, rows, n),
    ensures
        match (a.columns_of(c), b.columns_of(c)) {
            (Some(x), Some(y)) => y.ids.len() <= x.ids.len() + n,
            (None, None) => true,
            _ => false,
        },
    decreases n,
{
    if n > 0 {
        let m = choose|m: Derived|
            #![trigger stored_into(m, b, keeps, c, rows[n - 1].0, rows[n - 1].1)]
            batch_into(a, m, keeps, c, rows, n - 1) && stored_into(
                m,
                b,
                keeps,
                c,
                rows[n - 1].0,
                rows[n - 1].1,
            );
        lemma_batch_room(a, m, keeps, c, rows, n - 1);
    }
}

/// A batch of new records keeps everything derived in agreement with the records.
pub proof fn a_batch_keeps_agreement(
    a: Derived,
    b: Derived,
    keeps: Keeps,
    c: Seq<char>,
    t: Records,
    rows: RowsModel,
    n: int,
)
    requires
        0 <= n <= rows.len(),
        agrees_with(a, keeps, c, t),
        all_new(t, rows),
        has_room_for(a, c, rows.len()),
        batch_into(a, b, keeps, c, rows, n),
    ensures
        agrees_with(b, keeps, c, with_rows(t, rows, n)),
    decreases n,
{
    if n > 0 {
        let m = choose|m: Derived|
            #![trigger stored_into(m, b, keeps, c, rows[n - 1].0, rows[n - 1].1)]
            batch_into(a, m, keeps, c, rows, n - 1) && stored_into(
                m,
                b,
                keeps,
                c,
                rows[n - 1].0,
                rows[n - 1].1,
            );
        a_batch_keeps_agreement(a, m, keeps, c, t, rows, n - 1);
        lemma_batch_room(a, m, keeps, c, rows, n - 1);
        lemma_not_among(t, rows, n - 1);
        storing_keeps_agreement(
            m,
            b,
            keeps,
            c,
            with_rows(t, rows, n - 1),
            rows[n - 1].0,
            rows[n - 1].1,
        );
    }
}

impl Database {
    /// Records were inserted together: everything derived takes each in, as if they
    /// had been inserted one at a time.
    pub fn insert_batch<E: Fn(&Expr, &Record) -> bool>(
        &mut self,
        collection: &str,
        stored: &Rows,
        eval: &E,
    )
        requires
            old(self).wf(),
            askable(*eval),
            epoch_of(old(self).epochs, collection@) < u64::MAX,
        ensures
            final(self).wf(),
            changed_in(*old(self), *final(self), collection@),
            final(self).derived.views.enabled() == old(self).derived.views.enabled(),
            same_elsewhere(old(self).derived, final(self).derived, collection@),
            agrees_elsewhere(old(self).derived, final(self).derived, collection@),
            forall|keeps: Keeps| #[trigger]
                evaluates(*eval, keeps) ==> batch_into(
                    old(self).derived,
                    final(self).derived,
                    keeps,
                    collection@,
                    rows_model(stored@),
                    stored@.len() as int,
                ),
    {
        let ghost rows = rows_model(stored@);
        let ghost start = *self;
        let mut i: usize = 0;
        while i < stored.len()
            invariant
                i <= stored@.len(),
                rows == rows_model(stored@),
                self.wf(),
                askable(*eval),
                *self == (Database { derived: self.derived, ..start }),
                self.derived.views.enabled() == start.derived.views.enabled(),
                same_elsewhere(start.derived, self.derived, collection@),
                agrees_elsewhere(start.derived, self.derived, collection@),
                forall|keeps: Keeps| #[trigger]
                    evaluates(*eval, keeps) ==> batch_into(
                        start.derived,
                        self.derived,
                        keeps,
                        collection@,
                        rows,
                        i as int,
                    ),
            decreases stored@.len() - i,
        {
            let ghost m = self.derived;
            self.derived.reindex_insert(collection, stored[i].0, &stored[i].1, eval);
            proof {
                lemma_arrival_elsewhere(m, self.derived, collection@, stored@[i as int].1.model());
                assert(rows[i as int] == (stored@[i as int].0, stored@[i as int].1.model()));
                assert forall|keeps: Keeps| #[trigger] evaluates(*eval, keeps) implies batch_into(
                    start.derived,
                    self.derived,
                    keeps,
                    collection@,
                    rows,
                    i + 1,
                ) by {
                    lemma_batch_step(
                        start.derived,
                        m,
                        self.derived,
                        keeps,
                        collection@,
                        rows,
                        i + 1,
                    );
                }
                assert forall|other: Seq<char>| other != collection@ implies {
                    &&& #[trigger] self.derived.indexes_of(other) == start.derived.indexes_of(other)
                    &&& self.derived.array_of(other) == start.derived.array_of(other)
                    &&& self.derived.columns_of(other) == start.derived.columns_of(other)
                } by {
                    assert(m.indexes_of(other) == start.derived.indexes_of(other));
                }
            }
            i += 1;
        }
        self.bump_epoch(collection);
    }

    // -- transactions ----------------------------------------------------------

    /// Begin a transaction over a snapshot.
    pub fn begin(&mut self, snapshot: u64) -> (t: Transaction)
        requires
            old(self).wf(),
            old(self).next_txn_id < u64::MAX,
        ensures
            final(self).wf(),
            *final(self) == (Database {
                next_txn_id: (old(self).next_txn_id + 1) as u64,
                ..*old(self)
            }),
            t.wf(),
            t.ident() == old(self).next_txn_id,
            t.taken_at() == snapshot,
            t.pending() == Writes::empty(),
            t.observed() == Seq::<Key>::empty(),
            t.scanned() == Seq::<Seq<char>>::empty(),
    {
        let id = self.next_txn_id;
        self.next_txn_id = id + 1;
        Transaction::new(id, snapshot)
    }
}

// -- checking ------------------------------------------------------------------

/// What is wrong with everything derived from the first `n` collections.
pub open spec fn problems_in(d: Derived, s: Seq<CollectionModel>, keeps: Keeps, n: int) -> Seq<
    DivergenceModel,
>
    decreases n,
{
    if n <= 0 {
        Seq::empty()
    } else {
        problems_in(d, s, keeps, n - 1) + collection_problems(
            d,
            s[n - 1].name,
            keeps,
            s[n - 1].rows,
        )
    }
}

/// How many records the first `n` collections hold.
pub open spec fn records_in_all(s: Seq<CollectionModel>, n: int) -> nat
    decreases n,
{
    if n <= 0 {
        0
    } else {
        records_in_all(s, n - 1) + s[n - 1].rows.len()
    }
}

/// How many indexes the first `n` collections have.
pub open spec fn indexes_in_all(d: Derived, s: Seq<CollectionModel>, n: int) -> nat
    decreases n,
{
    if n <= 0 {
        0
    } else {
        indexes_in_all(d, s, n - 1) + d.indexes_of(s[n - 1].name).len()
    }
}

proof fn lemma_counts_grow(d: Derived, s: Seq<CollectionModel>, i: int, n: int)
    requires
        0 <= i <= n,
    ensures
        records_in_all(s, i) <= records_in_all(s, n),
        indexes_in_all(d, s, i) <= indexes_in_all(d, s, n),
    decreases n - i,
{
    if i < n {
        lemma_counts_grow(d, s, i, n - 1);
    }
}

impl Database {
    /// Check everything derived against the records, and name what disagrees.
    pub fn verify<E: Fn(&Expr, &Record) -> bool>(&self, all: &Vec<Collection>, eval: &E) -> (report:
        VerifyReport)
        requires
            self.wf(),
            askable(*eval),
            forall|i: int| 0 <= i < all@.len() ==> ascending((#[trigger] all@[i])@.rows),
            records_in_all(collections(all@), all@.len() as int) <= u64::MAX,
            indexes_in_all(self.derived, collections(all@), all@.len() as int) <= usize::MAX,
        ensures
            report.records_checked == records_in_all(collections(all@), all@.len() as int),
            report.indexes_checked == indexes_in_all(
                self.derived,
                collections(all@),
                all@.len() as int,
            ),
            forall|keeps: Keeps| #[trigger]
                evaluates(*eval, keeps) ==> divergences(report.problems@) == problems_in(
                    self.derived,
                    collections(all@),
                    keeps,
                    all@.len() as int,
                ),
    {
        let ghost s = collections(all@);
        let ghost d = self.derived;
        let mut report = VerifyReport::default();
        assert(divergences(report.problems@) =~= Seq::empty());
        let mut i: usize = 0;
        while i < all.len()
            invariant
                i <= all@.len(),
                self.wf(),
                askable(*eval),
                d == self.derived,
                s == collections(all@),
                forall|k: int| 0 <= k < all@.len() ==> ascending((#[trigger] all@[k])@.rows),
                records_in_all(s, all@.len() as int) <= u64::MAX,
                indexes_in_all(d, s, all@.len() as int) <= usize::MAX,
                report.records_checked == records_in_all(s, i as int),
                report.indexes_checked == indexes_in_all(d, s, i as int),
                forall|keeps: Keeps| #[trigger]
                    evaluates(*eval, keeps) ==> divergences(report.problems@) == problems_in(
                        d,
                        s,
                        keeps,
                        i as int,
                    ),
            decreases all@.len() - i,
        {
            proof {
                assert(s[i as int] == all@[i as int]@);
                lemma_counts_grow(d, s, i + 1, all@.len() as int);
                assert(rows_model(all@[i as int].rows@) == s[i as int].rows);
                assert(s[i as int].rows.len() == all@[i as int].rows@.len());
            }
            self.derived.verify(all[i].name.as_str(), &all[i].rows, eval, &mut report);
            i += 1;
        }
        report
    }
}

/// What is derived is clean where everything derived agrees with the records.
pub proof fn a_database_that_agrees_is_clean(
    d: Derived,
    s: Seq<CollectionModel>,
    keeps: Keeps,
    n: int,
)
    requires
        0 <= n <= s.len(),
        d.wf(),
        forall|i: int|
            0 <= i < s.len() ==> ascending((#[trigger] s[i]).rows) && agrees_with(
                d,
                keeps,
                s[i].name,
                crate::verify::records_of(s[i].rows),
            ) && all_well_named(d, s[i].name),
    ensures
        problems_in(d, s, keeps, n).len() == 0,
    decreases n,
{
    if n > 0 {
        a_database_that_agrees_is_clean(d, s, keeps, n - 1);
        crate::verify::an_agreeing_state_is_clean(d, s[n - 1].name, keeps, s[n - 1].rows);
    }
}

/// Whether every index of a collection goes by a name that says what it is.
pub open spec fn all_well_named(d: Derived, c: Seq<char>) -> bool {
    forall|i: int|
        0 <= i < d.indexes_of(c).len() ==> crate::verify::well_named(#[trigger] d.indexes_of(c)[i])
}

// -- what the optimizer works from ---------------------------------------------

/// How wide the ids of a collection range: one past the last, as far as that can be
/// said.
pub open spec fn id_span(rows: RowsModel) -> u64 {
    if rows.len() == 0 {
        0
    } else if rows.last().0 == u64::MAX {
        u64::MAX
    } else {
        (rows.last().0 + 1) as u64
    }
}

/// The names of collections, and how many records each holds.
pub open spec fn sizes(s: Seq<CollectionModel>) -> Seq<(Seq<char>, usize)> {
    s.map_values(|c: CollectionModel| (c.name, c.rows.len() as usize))
}

/// The collections whose records are of constant size.
pub open spec fn fixed_in(s: Seq<CollectionModel>) -> Seq<FixedModel>
    decreases s.len(),
{
    if s.len() == 0 {
        Seq::empty()
    } else if s.last().schema.mode == SchemaMode::Fixed {
        fixed_in(s.drop_last()).push(
            FixedModel {
                name: s.last().name,
                rows: s.last().rows.len() as u64,
                span: id_span(s.last().rows),
            },
        )
    } else {
        fixed_in(s.drop_last())
    }
}

fn span_of(rows: &Rows) -> (n: u64)
    ensures
        n == id_span(rows_model(rows@)),
{
    let len: usize = rows.len();
    assert(rows_model(rows@).len() == len);
    if len == 0 {
        return 0;
    }
    assert(rows_model(rows@).last() == (rows@[len - 1].0, rows@[len - 1].1.model()));
    let last: u64 = rows[len - 1].0;
    if last == u64::MAX {
        u64::MAX
    } else {
        last + 1
    }
}

impl Database {
    /// Gather what the optimizer needs to describe this database: its collections
    /// and indexes, what was counted of the workload, and what all of it takes up.
    pub fn opt_inputs(
        &self,
        all: &Vec<Collection>,
        filtered_fields: Vec<(String, String, u64)>,
        equality: Vec<Equality>,
        writes: u64,
        operations: u64,
        stored_bytes: u64,
    ) -> (ctx: OptContext)
        requires
            self.wf(),
        ensures
            ctx@.collections == sizes(collections(all@)),
            ctx@.fixed == fixed_in(collections(all@)),
            ctx.filtered_fields == filtered_fields,
            ctx.equality == equality,
            ctx.writes == writes,
            ctx.operations == operations,
            ctx.current_bytes == if stored_bytes + footprint(*self) <= u64::MAX {
                stored_bytes + footprint(*self)
            } else {
                u64::MAX as int
            },
            specs_ordered(ctx@.indexes),
            ctx@.indexes.to_multiset() == specs_in(
                self.derived.indexes.entries(),
                self.derived.indexes.entries().len() as int,
            ).to_multiset(),
    {
        let ghost s = collections(all@);
        let mut held: Vec<(String, usize)> = Vec::new();
        let mut fixed: Vec<FixedCollection> = Vec::new();
        let mut i: usize = 0;
        let ghost shown = |f: FixedCollection| FixedModel {
            name: f.name@,
            rows: f.rows,
            span: f.span,
        };
        assert(s.take(0) =~= Seq::empty());
        assert(fixed@.map_values(shown) =~= fixed_in(s.take(0)));
        while i < all.len()
            invariant
                i <= all@.len(),
                s == collections(all@),
                shown == (|f: FixedCollection| FixedModel {
                    name: f.name@,
                    rows: f.rows,
                    span: f.span,
                }),
                held@.len() == i,
                forall|k: int|
                    0 <= k < i ==> (#[trigger] held@[k]).0@ == s[k].name && held@[k].1
                        == s[k].rows.len(),
                fixed@.map_values(shown) == fixed_in(s.take(i as int)),
            decreases all@.len() - i,
        {
            let ghost before = fixed@;
            assert(s.take(i + 1).drop_last() =~= s.take(i as int));
            assert(s.take(i + 1).last() == all@[i as int]@);
            assert(s[i as int] == all@[i as int]@);
            assert(rows_model(all@[i as int].rows@).len() == all@[i as int].rows@.len());
            let n: usize = all[i].rows.len();
            held.push((all[i].name.clone(), n));
            let is_fixed = match all[i].schema.mode() {
                SchemaMode::Fixed => true,
                _ => false,
            };
            if is_fixed {
                let f = FixedCollection {
                    name: all[i].name.clone(),
                    rows: n as u64,
                    span: span_of(&all[i].rows),
                };
                fixed.push(f);
                assert(fixed@.map_values(shown) =~= before.map_values(shown).push(shown(f)));
            }
            i += 1;
        }
        assert(s.take(i as int) =~= s);
        let specs = self.derived.index_specs();
        let mut existing: Vec<(String, String, IndexKind)> = Vec::new();
        let mut j: usize = 0;
        while j < specs.len()
            invariant
                j <= specs@.len(),
                existing@.len() == j,
                forall|k: int|
                    0 <= k < j ==> ((#[trigger] existing@[k]).0@, existing@[k].1@, existing@[k].2)
                        == specs@[k]@,
            decreases specs@.len() - j,
        {
            let x = &specs[j];
            existing.push((x.collection.clone(), x.field.clone(), x.kind));
            j += 1;
        }
        let ctx = OptContext {
            collections: held,
            filtered_fields,
            fixed_size_collections: fixed,
            existing_indexes: existing,
            equality,
            writes,
            operations,
            current_bytes: stored_bytes.saturating_add(self.derived_memory_bytes() as u64),
        };
        assert(ctx@.indexes =~= spec_models(specs@));
        assert(ctx@.collections =~= sizes(s));
        assert(ctx@.fixed =~= fixed@.map_values(shown));
        ctx
    }

    /// What a planner may know.
    pub fn plan_context(&self, live: &StrMap<u64>) -> (x: PlanContext)
        requires
            self.wf(),
            live.wf(),
        ensures
            x.tells(self.derived, self.trials@.hidden, revealed(self.trials@), *live),
    {
        self.derived.plan_context(&self.trials, live)
    }

    // -- plain answers -----------------------------------------------------------

    /// Every index, in order.
    pub fn index_specs(&self) -> (out: Vec<IndexSpec>)
        requires
            self.wf(),
        ensures
            specs_ordered(spec_models(out@)),
            spec_models(out@).to_multiset() == specs_in(
                self.derived.indexes.entries(),
                self.derived.indexes.entries().len() as int,
            ).to_multiset(),
    {
        self.derived.index_specs()
    }

    pub fn has_index(&self, collection: &str, field: &str) -> (r: bool)
        requires
            self.wf(),
        ensures
            r == (first_named(self.derived.indexes_of(collection@), field@) is Some),
    {
        self.derived.has_index(collection, field)
    }

    /// The kind of the oldest index of a name.
    pub fn index_kind(&self, collection: &str, field: &str) -> (r: Option<IndexKind>)
        requires
            self.wf(),
        ensures
            r == match first_named(self.derived.indexes_of(collection@), field@) {
                Some(m) => Some(m.kind),
                None => None,
            },
    {
        self.derived.index_kind(collection, field)
    }

    pub fn index_memory_bytes(&self) -> (n: usize)
        ensures
            n == all_indexes_cost(
                self.derived.indexes.entries(),
                self.derived.indexes.entries().len() as int,
            ),
    {
        self.derived.index_memory_bytes()
    }

    pub fn has_direct_array(&self, collection: &str) -> (r: bool)
        requires
            self.wf(),
        ensures
            r == (self.derived.array_of(collection@) is Some),
    {
        self.derived.has_direct_array(collection)
    }

    pub fn has_column_store(&self, collection: &str) -> (r: bool)
        requires
            self.wf(),
        ensures
            r == (self.derived.columns_of(collection@) is Some),
    {
        self.derived.has_column_store(collection)
    }

    /// How many collections have a columnar copy.
    pub fn column_store_collections(&self) -> (n: usize)
        ensures
            n == self.derived.columns.entries().len(),
    {
        self.derived.columns.pairs.len()
    }

    /// The largest part of dead rows among the columnar copies: dead rows out of
    /// all.
    pub fn column_store_dead_fraction(&self) -> (r: (usize, usize))
        requires
            self.wf(),
        ensures
            (r.0 as nat, r.1 as nat) == worst_dead(
                self.derived.columns.entries(),
                self.derived.columns.entries().len() as int,
            ),
    {
        self.derived.column_store_dead_fraction()
    }

    pub fn materialized_views(&self) -> (n: usize)
        ensures
            n == self.derived.views.views().len(),
    {
        self.derived.views.len()
    }

    pub fn explain_materialized_views(&self) -> (s: String)
        ensures
            s@ == if self.derived.views.views().len() == 0 {
                "no materialized views"@
            } else {
                joined(
                    self.derived.views.views().map_values(|v: MaterializedView| view_text(v)),
                    "\n"@,
                )
            },
    {
        self.derived.views.describe()
    }

    pub fn plan_cache_stats(&self) -> (s: CacheStats)
        ensures
            s == self.plan_cache.counters(),
    {
        self.plan_cache.stats()
    }

    pub fn result_cache_stats(&self) -> (s: CacheStats)
        ensures
            s == self.result_cache.counters(),
    {
        self.result_cache.stats()
    }

    /// Resize the plan cache, in entries. Zero switches it off.
    pub fn set_plan_cache_entries(&mut self, n: usize)
        requires
            old(self).wf(),
        ensures
            final(self).wf(),
            *final(self) == (Database { plan_cache: final(self).plan_cache, ..*old(self) }),
            resized_plans(old(self).plan_cache, final(self).plan_cache, n),
    {
        self.plan_cache.set_capacity(n);
    }

    /// Resize the result cache, in entries. Zero switches it off.
    pub fn set_result_cache_entries(&mut self, n: usize)
        requires
            old(self).wf(),
        ensures
            final(self).wf(),
            *final(self) == (Database { result_cache: final(self).result_cache, ..*old(self) }),
            resized_results(old(self).result_cache, final(self).result_cache, n),
    {
        self.result_cache.set_capacity(n);
    }

    /// How many shapes are specialised past the general path.
    pub fn compiled_paths(&self) -> (n: usize)
        ensures
            n == self.compiled@.paths.len(),
    {
        self.compiled.len()
    }

    pub fn compiled_hits(&self) -> (n: u64)
        ensures
            n == self.compiled@.hits,
    {
        self.compiled.hits()
    }

    pub fn is_thread_per_core(&self) -> (r: bool)
        ensures
            r == self.thread_per_core,
    {
        self.thread_per_core
    }

    pub fn is_delta_encoding(&self) -> (r: bool)
        ensures
            r == self.delta_encoding,
    {
        self.delta_encoding
    }

    pub fn is_join_order(&self) -> (r: bool)
        ensures
            r == self.join_order,
    {
        self.join_order
    }

    pub fn is_data_partitioning(&self) -> (r: bool)
        ensures
            r == self.data_partitioning,
    {
        self.data_partitioning
    }
}

/// Everything is checked: every record of every collection, and every index; and what is
/// wrong with one collection is told as it would be alone, after what is wrong with those
/// before it.
pub proof fn everything_is_checked(
    d: Derived,
    s: Seq<CollectionModel>,
    keeps: Keeps,
    n: int,
    i: int,
)
    requires
        0 <= i < n <= s.len(),
    ensures
        records_in_all(s, n) >= s[i].rows.len(),
        indexes_in_all(d, s, n) >= d.indexes_of(s[i].name).len(),
        forall|p: DivergenceModel| #[trigger]
            collection_problems(d, s[i].name, keeps, s[i].rows).contains(p) ==> problems_in(
                d,
                s,
                keeps,
                n,
            ).contains(p),
    decreases n,
{
    let own = collection_problems(d, s[i].name, keeps, s[i].rows);
    let all = problems_in(d, s, keeps, n);
    let before = problems_in(d, s, keeps, n - 1);
    if i < n - 1 {
        everything_is_checked(d, s, keeps, n - 1, i);
    }
    assert forall|p: DivergenceModel| #[trigger] own.contains(p) implies all.contains(p) by {
        if i < n - 1 {
            let k = choose|k: int| 0 <= k < before.len() && before[k] == p;
            assert(all[k] == p);
        } else {
            let k = choose|k: int| 0 <= k < own.len() && own[k] == p;
            assert(all[before.len() + k] == p);
        }
    }
}

/// The ids of a collection lie below its span, as far as that can be said, and the last of
/// them just below it.
pub proof fn ids_lie_within_their_span(rows: RowsModel, i: int)
    requires
        ascending(rows),
        0 <= i < rows.len(),
    ensures
        rows[i].0 < id_span(rows) || rows[i].0 == u64::MAX,
        rows[rows.len() - 1].0 < u64::MAX ==> id_span(rows) == rows[rows.len() - 1].0 + 1,
{
    assert(rows[rows.len() - 1] == rows.last());
    if i < rows.len() - 1 {
        assert(rows[i].0 < rows[rows.len() - 1].0);
    }
}

/// The collections whose records are of constant size are told of, each with how many
/// records it holds and how wide their ids range.
pub proof fn fixed_collections_are_told_of(s: Seq<CollectionModel>)
    ensures
        fixed_in(s) == s.filter(|c: CollectionModel| c.schema.mode is Fixed).map_values(
            |c: CollectionModel|
                FixedModel { name: c.name, rows: c.rows.len() as u64, span: id_span(c.rows) },
        ),
    decreases s.len(),
{
    reveal(Seq::filter);
    let fixed = |c: CollectionModel| c.schema.mode is Fixed;
    let shown = |c: CollectionModel|
        FixedModel { name: c.name, rows: c.rows.len() as u64, span: id_span(c.rows) };
    if s.len() > 0 {
        fixed_collections_are_told_of(s.drop_last());
        let before = s.drop_last().filter(fixed);
        assert(before.push(s.last()).map_values(shown) =~= before.map_values(shown).push(
            shown(s.last()),
        ));
    } else {
        assert(s.filter(fixed).map_values(shown) =~= Seq::empty());
    }
}

} // verus!
