//! Making and dropping derived structures.
//!
//! A structure that comes or goes makes cached decisions about how to reach
//! records wrong, so they go with it.

use vstd::prelude::*;
use vstd::string::*;
use crate::action::IndexKind;
use crate::caches::{
    rows_model, ticked, CacheStats, FifoModel, PlanCache, PlanDecision, Rows,
};
use crate::compiled::CompiledModel;
use crate::constraints::{
    check_stored, constrained, scan_breach, unguarded, unguarded_fields, Breach,
};
use crate::database::{agrees_elsewhere, bumped, dropped_results, epoch_of, Database};
use crate::derived::{agrees_with, same_elsewhere, Derived};
use crate::direct::{addressable, ArrayModel, DirectArray};
use crate::error::{Error, ErrorModel};
use crate::expr::Expr;
use crate::index::{askable, faithful, IndexModel, Keeps, Records};
use crate::indexing::{
    composite_outcome, covering_outcome, exists_index, index_outcome, only_indexes, optional_groups,
    partial_outcome, without_index,
};
use crate::infer::{concluded, field_names, infer, inferred_from, schema_for, InferredSchema};
use crate::matview::{views_elsewhere, MaterializedView};
use crate::number::add_capped;
use crate::proving::footprint;
use crate::record::{record_models, Record};
use crate::rows::ascending;
use crate::schema::{all_declarable, rigidity_of, Schema, SchemaMode, SchemaModel};
use crate::unique::Pair;
use crate::value::Value;

verus! {

/// Whether every cached access decision was dropped.
pub open spec fn dropped_plans(a: PlanCache, b: PlanCache) -> bool {
    &&& b.model() == (FifoModel {
        entries: Map::<u64, PlanDecision>::empty(),
        order: Seq::empty(),
        capacity: a.model().capacity,
    })
    &&& b.counters() == (CacheStats {
        invalidations: ticked(a.counters().invalidations),
        ..a.counters()
    })
}

/// Specialised paths once all of them were dropped.
pub open spec fn no_paths(m: CompiledModel) -> CompiledModel {
    CompiledModel { paths: Map::empty(), counts: Map::empty(), ..m }
}

/// Whether a state is another after something derived from a collection came or
/// went: cached decisions go, specialised paths where `paths` says so, and cached
/// results where `results` does.
pub open spec fn replanned(a: Database, b: Database, c: Seq<char>, paths: bool, results: bool) -> bool {
    &&& b == (Database {
        derived: b.derived,
        plan_cache: b.plan_cache,
        compiled: b.compiled,
        epochs: b.epochs,
        result_cache: b.result_cache,
        ..a
    })
    &&& dropped_plans(a.plan_cache, b.plan_cache)
    &&& if paths {
        b.compiled@ == no_paths(a.compiled@)
    } else {
        b.compiled == a.compiled
    }
    &&& if results {
        bumped(a.epochs, b.epochs, c) && dropped_results(a.result_cache, b.result_cache, c)
    } else {
        b.epochs == a.epochs && b.result_cache == a.result_cache
    }
}

impl Database {
    /// Something derived from a collection came or went.
    fn replan(&mut self, collection: &str, paths: bool, results: bool)
        requires
            old(self).wf(),
            results ==> epoch_of(old(self).epochs, collection@) < u64::MAX,
        ensures
            final(self).wf(),
            replanned(*old(self), *final(self), collection@, paths, results),
            final(self).derived == old(self).derived,
    {
        if results {
            self.bump_epoch(collection);
        }
        self.plan_cache.clear();
        if paths {
            self.compiled.clear();
        }
    }

    // -- indexes -------------------------------------------------------------

    /// Make an index of a kind on a field, from the records of its collection.
    /// Returns whether one was made: not where it is there already.
    pub fn create_index<E: Fn(&Expr, &Record) -> bool>(
        &mut self,
        collection: &str,
        known: bool,
        field: &str,
        kind: IndexKind,
        rows: &Rows,
        eval: &E,
    ) -> (r: Result<bool, Error>)
        requires
            old(self).wf(),
            ascending(rows_model(rows@)),
            askable(*eval),
        ensures
            final(self).wf(),
            index_outcome(
                old(self).derived,
                final(self).derived,
                r,
                collection@,
                known,
                field@,
                kind,
                None,
                rows_model(rows@),
                *eval,
            ),
            if r == Ok::<bool, Error>(true) {
                replanned(*old(self), *final(self), collection@, true, false)
            } else {
                *final(self) == *old(self)
            },
    {
        self.create_index_from(collection, known, field, kind, None, rows, eval)
    }

    /// Make the index a name asks for, from cached entries where they can be used.
    pub fn create_index_from<E: Fn(&Expr, &Record) -> bool>(
        &mut self,
        collection: &str,
        known: bool,
        name: &str,
        kind: IndexKind,
        cached: Option<&Vec<(Value, Vec<u64>)>>,
        rows: &Rows,
        eval: &E,
    ) -> (r: Result<bool, Error>)
        requires
            old(self).wf(),
            ascending(rows_model(rows@)),
            askable(*eval),
        ensures
            final(self).wf(),
            index_outcome(
                old(self).derived,
                final(self).derived,
                r,
                collection@,
                known,
                name@,
                kind,
                optional_groups(cached),
                rows_model(rows@),
                *eval,
            ),
            if r == Ok::<bool, Error>(true) {
                replanned(*old(self), *final(self), collection@, true, false)
            } else {
                *final(self) == *old(self)
            },
    {
        let r = self.derived.create_index_from(collection, known, name, kind, cached, rows, eval);
        if let Ok(made) = r {
            if made {
                self.replan(collection, true, false);
            }
        }
        r
    }

    /// Make an index over several fields at once.
    pub fn create_composite_index<E: Fn(&Expr, &Record) -> bool>(
        &mut self,
        collection: &str,
        known: bool,
        fields: Vec<String>,
        rows: &Rows,
        eval: &E,
    ) -> (r: Result<bool, Error>)
        requires
            old(self).wf(),
            ascending(rows_model(rows@)),
            askable(*eval),
            epoch_of(old(self).epochs, collection@) < u64::MAX,
        ensures
            final(self).wf(),
            composite_outcome(
                old(self).derived,
                final(self).derived,
                r,
                collection@,
                known,
                crate::text::texts(fields@),
                rows_model(rows@),
                *eval,
            ),
            if r == Ok::<bool, Error>(true) {
                replanned(*old(self), *final(self), collection@, false, true)
            } else {
                *final(self) == *old(self)
            },
    {
        let r = self.derived.create_composite_index(collection, known, fields, rows, eval);
        if let Ok(made) = r {
            if made {
                self.replan(collection, false, true);
            }
        }
        r
    }

    /// Make an index on a field that also carries others for every record.
    pub fn create_covering_index<E: Fn(&Expr, &Record) -> bool>(
        &mut self,
        collection: &str,
        known: bool,
        field: &str,
        covers: &Vec<String>,
        kind: IndexKind,
        rows: &Rows,
        eval: &E,
    ) -> (r: Result<bool, Error>)
        requires
            old(self).wf(),
            ascending(rows_model(rows@)),
            askable(*eval),
            epoch_of(old(self).epochs, collection@) < u64::MAX,
        ensures
            final(self).wf(),
            covering_outcome(
                old(self).derived,
                final(self).derived,
                r,
                collection@,
                known,
                field@,
                crate::text::texts(covers@),
                kind,
                rows_model(rows@),
                *eval,
            ),
            if r == Ok::<bool, Error>(true) {
                replanned(*old(self), *final(self), collection@, true, true)
            } else {
                *final(self) == *old(self)
            },
    {
        let r = self.derived.create_covering_index(
            collection,
            known,
            field,
            covers,
            kind,
            rows,
            eval,
        );
        if let Ok(made) = r {
            if made {
                self.replan(collection, true, true);
            }
        }
        r
    }

    /// Make an index on a field that holds only the records a condition keeps.
    pub fn create_partial_index<E: Fn(&Expr, &Record) -> bool>(
        &mut self,
        collection: &str,
        known: bool,
        field: &str,
        condition: Expr,
        kind: IndexKind,
        rows: &Rows,
        eval: &E,
    ) -> (r: Result<bool, Error>)
        requires
            old(self).wf(),
            ascending(rows_model(rows@)),
            askable(*eval),
            epoch_of(old(self).epochs, collection@) < u64::MAX,
        ensures
            final(self).wf(),
            partial_outcome(
                old(self).derived,
                final(self).derived,
                r,
                collection@,
                known,
                field@,
                condition.model(),
                kind,
                rows_model(rows@),
                *eval,
            ),
            if r == Ok::<bool, Error>(true) {
                replanned(*old(self), *final(self), collection@, true, true)
            } else {
                *final(self) == *old(self)
            },
    {
        let r = self.derived.create_partial_index(
            collection,
            known,
            field,
            condition,
            kind,
            rows,
            eval,
        );
        if let Ok(made) = r {
            if made {
                self.replan(collection, true, true);
            }
        }
        r
    }

    /// Drop the indexes of a name and kind. Returns whether there was one.
    pub fn drop_index(&mut self, collection: &str, field: &str, kind: IndexKind) -> (changed: bool)
        requires
            old(self).wf(),
        ensures
            final(self).wf(),
            only_indexes(old(self).derived, final(self).derived, collection@),
            final(self).derived.indexes_of(collection@) == without_index(
                old(self).derived.indexes_of(collection@),
                field@,
                kind,
            ),
            changed == (final(self).derived.indexes_of(collection@).len() != old(self).derived.indexes_of(collection@).len()),
            if changed {
                replanned(*old(self), *final(self), collection@, true, false)
            } else {
                *final(self) == (Database { derived: final(self).derived, ..*old(self) })
            },
    {
        let changed = self.derived.drop_index(collection, field, kind);
        if changed {
            self.replan(collection, true, false);
        }
        changed
    }
}

/// Whether a state's indexes of a collection are those there were and one that
/// says what the records say.
pub open spec fn one_more(a: Derived, b: Derived, keeps: Keeps, c: Seq<char>, t: Records) -> bool {
    &&& only_indexes(a, b, c)
    &&& b.indexes_of(c) == a.indexes_of(c).push(b.indexes_of(c).last())
    &&& faithful(b.indexes_of(c).last(), keeps, t)
}

/// A collection whose derived structures agree with its records still does when an
/// index is made from them.
pub proof fn making_an_index_keeps_agreement(
    a: Derived,
    b: Derived,
    keeps: Keeps,
    c: Seq<char>,
    t: Records,
)
    requires
        agrees_with(a, keeps, c, t),
        one_more(a, b, keeps, c, t),
    ensures
        agrees_with(b, keeps, c, t),
{
    assert forall|i: int| 0 <= i < b.indexes_of(c).len() implies faithful(
        #[trigger] b.indexes_of(c)[i],
        keeps,
        t,
    ) by {
        if i < a.indexes_of(c).len() {
            assert(b.indexes_of(c)[i] == a.indexes_of(c)[i]);
        }
    }
    assert(b.array_of(c) == a.array_of(c));
    assert(b.columns_of(c) == a.columns_of(c));
}

proof fn lemma_without_index(s: Seq<IndexModel>, name: Seq<char>, kind: IndexKind, i: int)
    requires
        0 <= i < without_index(s, name, kind).len(),
    ensures
        s.contains(without_index(s, name, kind)[i]),
    decreases s.len(),
{
    if s.len() > 0 {
        let t = s.drop_last();
        let w = without_index(t, name, kind);
        if i < w.len() {
            lemma_without_index(t, name, kind, i);
            let k = choose|k: int| 0 <= k < t.len() && t[k] == w[i];
            assert(s[k] == w[i]);
        } else {
            assert(s[s.len() - 1] == s.last());
        }
    }
}

/// A collection whose derived structures agree with its records still does when an
/// index is dropped.
pub proof fn dropping_an_index_keeps_agreement(
    a: Derived,
    b: Derived,
    keeps: Keeps,
    c: Seq<char>,
    t: Records,
    name: Seq<char>,
    kind: IndexKind,
)
    requires
        agrees_with(a, keeps, c, t),
        only_indexes(a, b, c),
        b.indexes_of(c) == without_index(a.indexes_of(c), name, kind),
    ensures
        agrees_with(b, keeps, c, t),
{
    assert forall|i: int| 0 <= i < b.indexes_of(c).len() implies faithful(
        #[trigger] b.indexes_of(c)[i],
        keeps,
        t,
    ) by {
        lemma_without_index(a.indexes_of(c), name, kind, i);
        let k = choose|k: int|
            0 <= k < a.indexes_of(c).len() && a.indexes_of(c)[k] == b.indexes_of(c)[i];
        assert(faithful(a.indexes_of(c)[k], keeps, t));
    }
    assert(b.array_of(c) == a.array_of(c));
    assert(b.columns_of(c) == a.columns_of(c));
}

/// Why a field cannot be constrained.
pub enum Refusal {
    Failed(Error),
    /// Records share a value of it already.
    Shared(Breach),
}

/// What constraining a field came to.
#[derive(Clone, Copy, Debug, PartialEq, Eq, Structural)]
pub enum Constraining {
    /// It was constrained already.
    Already,
    /// It is now; an index to find a conflict by was made, or was there.
    Added { indexed: bool },
}

impl Database {
    // -- unique constraints --------------------------------------------------

    /// Let no two records of a collection share a value of a field, unless some
    /// already do. An index to find a conflict by is made where there is none.
    pub fn add_unique_constraint<E: Fn(&Expr, &Record) -> bool>(
        &mut self,
        collection: &str,
        known: bool,
        field: &str,
        rows: &Rows,
        eval: &E,
    ) -> (r: Result<Constraining, Refusal>)
        requires
            old(self).wf(),
            ascending(rows_model(rows@)),
            askable(*eval),
        ensures
            final(self).wf(),
            if !known {
                r matches Err(Refusal::Failed(e)) && e@ == ErrorModel::NoSuchCollection(collection@)
                    && *final(self) == *old(self)
            } else if old(self).unique_constraints@.contains((collection@, field@)) {
                r == Ok::<Constraining, Refusal>(Constraining::Already) && *final(self) == *old(self)
            } else {
                match scan_breach(rows_model(rows@), field@, rows@.len() as int) {
                    Some(m) => r matches Err(Refusal::Shared(b)) && b@ == m && *final(self) == *old(self),
                    None => if exists_index(
                        old(self).derived.indexes_of(collection@),
                        field@,
                        IndexKind::Hash,
                    ) {
                        r == Ok::<Constraining, Refusal>(Constraining::Added { indexed: false })
                            && constrained_now(*old(self), *final(self), collection@, field@)
                            && *final(self) == (Database {
                            unique_constraints: final(self).unique_constraints,
                            ..*old(self)
                        })
                    } else {
                        exists|made: Result<bool, Error>| #[trigger]
                            index_outcome(
                                old(self).derived,
                                final(self).derived,
                                made,
                                collection@,
                                true,
                                field@,
                                IndexKind::Hash,
                                None,
                                rows_model(rows@),
                                *eval,
                            ) && match made {
                                Err(e) => r == Err::<Constraining, Refusal>(Refusal::Failed(e))
                                    && *final(self) == *old(self),
                                Ok(_) => r == Ok::<Constraining, Refusal>(
                                    Constraining::Added { indexed: true },
                                ) && constrained_now(*old(self), *final(self), collection@, field@)
                                    && replanned(
                                    *old(self),
                                    (Database {
                                        unique_constraints: old(self).unique_constraints,
                                        ..*final(self)
                                    }),
                                    collection@,
                                    true,
                                    false,
                                ),
                            }
                    },
                }
            },
    {
        if !known {
            return Err(Refusal::Failed(Error::NoSuchCollection(collection.to_owned())));
        }
        if self.unique_constraints.contains(collection, field) {
            return Ok(Constraining::Already);
        }
        if let Some(b) = check_stored(rows, field) {
            return Err(Refusal::Shared(b));
        }
        let ghost before = *self;
        let there = self.derived.index_exists(collection, field, IndexKind::Hash);
        if !there {
            let made = self.create_index(collection, true, field, IndexKind::Hash, rows, eval);
            match made {
                Err(e) => {
                    assert(index_outcome(
                        before.derived,
                        self.derived,
                        Err(e),
                        collection@,
                        true,
                        field@,
                        IndexKind::Hash,
                        None,
                        rows_model(rows@),
                        *eval,
                    ));
                    return Err(Refusal::Failed(e));
                },
                Ok(_) => {},
            }
        }
        let ghost between = *self;
        self.unique_constraints.add(collection, field);
        assert(Database { unique_constraints: before.unique_constraints, ..*self } == between);
        Ok(Constraining::Added { indexed: !there })
    }

    /// Stop constraining a field. The index behind it stays. Returns whether it was
    /// constrained.
    pub fn drop_unique_constraint(&mut self, collection: &str, field: &str) -> (removed: bool)
        requires
            old(self).wf(),
        ensures
            final(self).wf(),
            removed == old(self).unique_constraints@.contains((collection@, field@)),
            final(self).unique_constraints@ == old(self).unique_constraints@.remove(
                (collection@, field@),
            ),
            *final(self) == (Database {
                unique_constraints: final(self).unique_constraints,
                ..*old(self)
            }),
    {
        self.unique_constraints.remove(collection, field)
    }

    /// The constrained fields of a collection that have lost the index their
    /// constraint rests on. Each needs one before the next write.
    pub fn unguarded_fields(&self, collection: &str) -> (out: Vec<String>)
        requires
            self.wf(),
        ensures
            crate::text::texts(out@) == unguarded(
                self.derived.indexes_of(collection@),
                constrained(self.unique_constraints, collection@),
            ),
    {
        unguarded_fields(&self.unique_constraints, &self.derived, collection)
    }

    pub fn has_unique_constraint(&self, collection: &str, field: &str) -> (r: bool)
        requires
            self.wf(),
        ensures
            r == self.unique_constraints@.contains((collection@, field@)),
    {
        self.unique_constraints.contains(collection, field)
    }

    /// Every constrained field with its collection, in order.
    pub fn unique_constraints(&self) -> (out: Vec<(&str, &str)>)
        ensures
            out@.map_values(|p: (&str, &str)| (p.0@, p.1@)) == self.unique_constraints.pairs(),
    {
        self.unique_constraints.iter()
    }

    /// The scopes whose indexes may not be retracted, because a constraint rests on
    /// them.
    pub fn pinned_scopes(&self) -> (out: Vec<String>)
        ensures
            crate::text::texts(out@) == self.unique_constraints.pairs().map_values(
                |p: Pair| scope_text(p),
            ),
    {
        let pairs = self.unique_constraints.iter();
        let ghost all = self.unique_constraints.pairs();
        let mut out: Vec<String> = Vec::new();
        let mut i: usize = 0;
        while i < pairs.len()
            invariant
                i <= pairs@.len(),
                out@.len() == i,
                pairs@.map_values(|p: (&str, &str)| (p.0@, p.1@)) == all,
                forall|k: int| 0 <= k < i ==> (#[trigger] out@[k])@ == scope_text(all[k]),
            decreases pairs@.len() - i,
        {
            let ghost one = pairs@.map_values(|p: (&str, &str)| (p.0@, p.1@));
            assert(one[i as int] == (pairs@[i as int].0@, pairs@[i as int].1@));
            let mut s = pairs[i].0.to_owned();
            s.append(".");
            s.append(pairs[i].1);
            out.push(s);
            i += 1;
        }
        assert(pairs@.map_values(|p: (&str, &str)| (p.0@, p.1@)).len() == pairs@.len());
        assert(crate::text::texts(out@) =~= all.map_values(|p: Pair| scope_text(p)));
        out
    }

    // -- placement -----------------------------------------------------------

    /// Place a collection's records by a field from now on.
    pub fn declare_cluster_field(&mut self, collection: &str, known: bool, field: &str) -> (r: Result<
        (),
        Error,
    >)
        requires
            old(self).wf(),
        ensures
            final(self).wf(),
            *final(self) == (Database { cluster_fields: final(self).cluster_fields, ..*old(self) }),
            if known {
                &&& r is Ok
                &&& final(self).cluster_fields.of(collection@) matches Some(f) && f@ == field@
                &&& forall|other: Seq<char>|
                    other != collection@ ==> #[trigger] final(self).cluster_fields.of(other) == old(self).cluster_fields.of(other)
            } else {
                r matches Err(e) && e@ == ErrorModel::NoSuchCollection(collection@)
                    && *final(self) == *old(self)
            },
    {
        if !known {
            return Err(Error::NoSuchCollection(collection.to_owned()));
        }
        self.cluster_fields.put(collection, field.to_owned());
        Ok(())
    }

    /// Place a collection's records anywhere from now on.
    pub fn clear_cluster_field(&mut self, collection: &str)
        requires
            old(self).wf(),
        ensures
            final(self).wf(),
            *final(self) == (Database { cluster_fields: final(self).cluster_fields, ..*old(self) }),
            final(self).cluster_fields.of(collection@) is None,
            forall|other: Seq<char>|
                other != collection@ ==> #[trigger] final(self).cluster_fields.of(other) == old(self).cluster_fields.of(other),
    {
        self.cluster_fields.remove(collection);
    }

    /// The field a collection's records are placed by, if any.
    pub fn cluster_field(&self, collection: &str) -> (r: Option<&str>)
        requires
            self.wf(),
        ensures
            match self.cluster_fields.of(collection@) {
                Some(f) => r matches Some(s) && s@ == f@,
                None => r is None,
            },
    {
        match self.cluster_fields.get(collection) {
            Some(f) => Some(f.as_str()),
            None => None,
        }
    }

    // -- collections and schemas ---------------------------------------------

    /// A collection was created. While records are addressed directly one of
    /// constant size gets an array too.
    pub fn create_collection(&mut self, name: &str, schema: Schema, direct_lookup: bool)
        requires
            old(self).wf(),
            all_declarable(schema@.mode, schema@.fields),
        ensures
            final(self).wf(),
            created(*old(self), *final(self), name@, schema@, direct_lookup),
    {
        let fixed = match schema.mode() {
            SchemaMode::Fixed => true,
            _ => false,
        };
        if fixed && direct_lookup {
            if let Some(a) = DirectArray::new(schema) {
                self.derived.direct.put(name, a);
            }
        }
    }

    /// A collection was dropped: everything derived from it goes.
    pub fn drop_collection(&mut self, name: &str)
        requires
            old(self).wf(),
            epoch_of(old(self).epochs, name@) < u64::MAX,
        ensures
            final(self).wf(),
            emptied(old(self).derived, final(self).derived, name@),
            replanned(*old(self), *final(self), name@, true, true),
    {
        self.derived.invalidate(name);
        self.replan(name, true, true);
    }

    /// A collection's schema changed: nothing derived from its old layout holds
    /// any more.
    pub fn alter_schema(&mut self, collection: &str)
        requires
            old(self).wf(),
            epoch_of(old(self).epochs, collection@) < u64::MAX,
        ensures
            final(self).wf(),
            emptied(old(self).derived, final(self).derived, collection@),
            replanned(*old(self), *final(self), collection@, true, true),
    {
        self.derived.invalidate(collection);
        self.replan(collection, true, true);
    }

    /// Records moved between pages: nothing that reaches them by where they were
    /// holds any more.
    pub fn vacuum(&mut self)
        requires
            old(self).wf(),
        ensures
            final(self).wf(),
            *final(self) == (Database {
                derived: Derived {
                    direct: final(self).derived.direct,
                    ..old(self).derived
                },
                plan_cache: final(self).plan_cache,
                compiled: final(self).compiled,
                ..*old(self)
            }),
            forall|c: Seq<char>| #[trigger] final(self).derived.array_of(c) is None,
            dropped_plans(old(self).plan_cache, final(self).plan_cache),
            final(self).compiled@ == no_paths(old(self).compiled@),
    {
        self.derived.disable_direct_lookup();
        self.plan_cache.clear();
        self.compiled.clear();
    }

    /// What every derived structure takes: indexes, cached results, arrays, columnar
    /// copies and views.
    pub fn derived_memory_bytes(&self) -> (n: usize)
        requires
            self.wf(),
        ensures
            n == footprint(*self),
    {
        let a: usize = self.derived.index_memory_bytes();
        let b: usize = self.result_cache.memory_bytes();
        let c: usize = self.derived.direct_memory_bytes();
        let d: usize = self.derived.column_memory_bytes();
        let e: usize = self.derived.views.memory_bytes();
        let ab: usize = add_capped(a, b);
        let abc: usize = add_capped(ab, c);
        add_capped(add_capped(abc, d), e)
    }
}

/// Whether a state is another after a collection was created: one of constant size gets
/// an array of nothing while records are addressed directly.
pub open spec fn created(
    a: Database,
    b: Database,
    c: Seq<char>,
    schema: SchemaModel,
    direct_lookup: bool,
) -> bool {
    &&& b == (Database { derived: Derived { direct: b.derived.direct, ..a.derived }, ..a })
    &&& if schema.mode == SchemaMode::Fixed && direct_lookup && addressable(schema) {
        &&& b.derived.array_of(c) == Some(
            ArrayModel { schema, slots: Map::empty(), capacity: 0 },
        )
        &&& forall|other: Seq<char>|
            other != c ==> #[trigger] b.derived.direct.of(other) == a.derived.direct.of(other)
    } else {
        b == a
    }
}

/// A collection that is created leaves everything derived in agreement: an array of
/// nothing says what no records say.
pub proof fn creating_a_collection_keeps_agreement(
    a: Database,
    b: Database,
    made_one: Seq<char>,
    schema: SchemaModel,
    direct_lookup: bool,
    keeps: Keeps,
    c: Seq<char>,
    t: Records,
)
    requires
        created(a, b, made_one, schema, direct_lookup),
        c == made_one ==> forall|id: u64| !#[trigger] t.dom().contains(id),
        agrees_with(a.derived, keeps, c, t),
    ensures
        agrees_with(b.derived, keeps, c, t),
{
    assert(b.derived.indexes_of(c) == a.derived.indexes_of(c));
    assert(b.derived.columns_of(c) == a.derived.columns_of(c));
    if c != made_one {
        assert(b.derived.array_of(c) == a.derived.array_of(c));
    }
}

/// Whether a field is constrained that was not, and nothing else of constraints
/// changed.
pub open spec fn constrained_now(a: Database, b: Database, c: Seq<char>, field: Seq<char>) -> bool {
    b.unique_constraints@ == a.unique_constraints@.insert((c, field))
}

/// How the scope of an index on a field is written.
pub open spec fn scope_text(p: Pair) -> Seq<char> {
    p.0 + "."@ + p.1
}

/// Whether nothing derived from a collection is left, and everything else is.
pub open spec fn emptied(a: Derived, b: Derived, c: Seq<char>) -> bool {
    &&& same_elsewhere(a, b, c)
    &&& b.indexes_of(c) == Seq::<IndexModel>::empty()
    &&& b.array_of(c) is None
    &&& b.columns_of(c) is None
    &&& b.views.enabled() == a.views.enabled()
    &&& b.views.views() == views_elsewhere(a.views.views(), c)
}

proof fn lemma_views_elsewhere(s: Seq<MaterializedView>, c: Seq<char>, i: int)
    requires
        0 <= i < views_elsewhere(s, c).len(),
    ensures
        views_elsewhere(s, c)[i].source() != c,
        s.contains(views_elsewhere(s, c)[i]),
    decreases s.len(),
{
    if s.len() > 0 {
        let t = s.drop_last();
        let w = views_elsewhere(t, c);
        if i < w.len() {
            lemma_views_elsewhere(t, c, i);
            let k = choose|k: int| 0 <= k < t.len() && t[k] == w[i];
            assert(s[k] == w[i]);
        } else {
            assert(s[s.len() - 1] == s.last());
        }
    }
}

/// Everything derived can be dropped at any time: nothing agrees with whatever the
/// records are, and what is derived from other collections still agrees.
pub proof fn dropping_everything_keeps_agreement(
    a: Derived,
    b: Derived,
    keeps: Keeps,
    c: Seq<char>,
    t: Records,
)
    requires
        emptied(a, b, c),
    ensures
        agrees_with(b, keeps, c, t),
        agrees_elsewhere(a, b, c),
{
    let (x, y) = (a.views.views(), b.views.views());
    assert forall|i: int| 0 <= i < y.len() && (#[trigger] y[i]).source()
        == c implies crate::derived::view_faithful(y[i], t) by {
        lemma_views_elsewhere(x, c, i);
    }
    assert forall|k: Keeps, other: Seq<char>, u: Records|
        other != c && #[trigger] agrees_with(a, k, other, u) implies agrees_with(b, k, other, u) by {
        assert(b.indexes_of(other) == a.indexes_of(other));
        assert forall|i: int| 0 <= i < y.len() && (#[trigger] y[i]).source()
            == other implies crate::derived::view_faithful(y[i], u) by {
            lemma_views_elsewhere(x, c, i);
            let j = choose|j: int| 0 <= j < x.len() && x[j] == y[i];
            assert(x[j].source() == other);
        }
    }
}

// -- freezing a schema ---------------------------------------------------------

pub open spec fn already_text(c: Seq<char>, current: SchemaMode, concluded: SchemaMode) -> Seq<char> {
    c + " is already "@ + current.label() + "; inference concluded "@ + concluded.label()
}

/// The most rigid schema a collection's records support, unless the collection is
/// at least as rigid already.
pub fn freeze_schema(collection: &str, records: &Vec<Record>, headroom: usize, current: SchemaMode)
    -> (r: Result<InferredSchema, Error>)
    ensures
        ({
            let recs = record_models(records@);
            let s = schema_for(concluded(recs, field_names(recs), headroom as nat));
            if rigidity_of(s.mode) <= rigidity_of(current) {
                r matches Err(e) && e@ == ErrorModel::InvalidOptimization(
                    already_text(collection@, current, s.mode),
                )
            } else {
                r matches Ok(i) && inferred_from(i, recs, headroom as nat) && forall|k: int|
                    0 <= k < records@.len() ==> crate::schema::accepts(
                        i.schema@,
                        (#[trigger] records@[k]).model(),
                    )
            }
        }),
{
    let inferred = infer(records, headroom);
    let mode = inferred.schema.mode();
    if mode.rigidity() <= current.rigidity() {
        let mut s = collection.to_owned();
        s.append(" is already ");
        s.append(current.name());
        s.append("; inference concluded ");
        s.append(mode.name());
        return Err(Error::InvalidOptimization(s));
    }
    Ok(inferred)
}

// -- what becomes of a collection ----------------------------------------------------------

/// A collection is frozen only to become more rigid: the freest takes anything, a declared
/// one less, a strict one less still, and one of constant size least.
pub proof fn rigidity_goes_from_the_freest_to_the_fixed(a: SchemaMode, b: SchemaMode)
    ensures
        rigidity_of(a) == rigidity_of(b) <==> a == b,
        rigidity_of(SchemaMode::Dynamic) < rigidity_of(SchemaMode::Declared),
        rigidity_of(SchemaMode::Declared) < rigidity_of(SchemaMode::Strict),
        rigidity_of(SchemaMode::Strict) < rigidity_of(SchemaMode::Fixed),
        a is Dynamic ==> rigidity_of(a) <= rigidity_of(b),
        a is Fixed ==> rigidity_of(b) <= rigidity_of(a),
{
}

/// When something derived comes or goes no plan made without it is left, and where its
/// coming or going changes what is found, no result of its collection either. What was
/// derived from records, and what is constrained, stays.
pub proof fn a_changed_path_is_not_taken_again(
    a: Database,
    b: Database,
    c: Seq<char>,
    paths: bool,
    results: bool,
    key: u64,
)
    requires
        replanned(a, b, c, paths, results),
    ensures
        !b.plan_cache.model().entries.contains_key(key),
        b.plan_cache.model().order.len() == 0,
        b.plan_cache.model().capacity == a.plan_cache.model().capacity,
        paths ==> !b.compiled@.paths.contains_key(key) && !b.compiled@.counts.contains_key(key),
        results ==> (b.result_cache.model().entries.contains_key(key)
            ==> b.result_cache.model().entries[key].source() != c) && epoch_of(b.epochs, c)
            > epoch_of(a.epochs, c),
        b.unique_constraints == a.unique_constraints,
        b.cluster_fields == a.cluster_fields,
        b.trials == a.trials,
{
}

/// When a collection goes, nothing derived from it is left; what was derived from another
/// is.
pub proof fn nothing_is_left_of_a_collection_that_goes(
    a: Derived,
    b: Derived,
    c: Seq<char>,
    v: MaterializedView,
)
    requires
        emptied(a, b, c),
    ensures
        b.indexes_of(c).len() == 0,
        b.array_of(c) is None,
        b.columns_of(c) is None,
        b.views.views().contains(v) <==> a.views.views().contains(v) && v.source() != c,
{
    lemma_views_elsewhere_kept(a.views.views(), c, v);
}

proof fn lemma_views_elsewhere_kept(s: Seq<MaterializedView>, c: Seq<char>, v: MaterializedView)
    ensures
        views_elsewhere(s, c).contains(v) <==> s.contains(v) && v.source() != c,
    decreases s.len(),
{
    if s.len() > 0 {
        let t = s.drop_last();
        let w = views_elsewhere(t, c);
        lemma_views_elsewhere_kept(t, c, v);
        assert(s.contains(v) <==> t.contains(v) || v == s.last()) by {
            assert(s =~= t.push(s.last()));
            lemma_pushed(t, s.last(), v);
        }
        if s.last().source() != c {
            lemma_pushed(w, s.last(), v);
        }
    }
}

proof fn lemma_pushed(s: Seq<MaterializedView>, x: MaterializedView, v: MaterializedView)
    ensures
        s.push(x).contains(v) <==> s.contains(v) || v == x,
{
    let t = s.push(x);
    if s.contains(v) {
        let i = choose|i: int| 0 <= i < s.len() && s[i] == v;
        assert(t[i] == v);
    }
    if t.contains(v) {
        let i = choose|i: int| 0 <= i < t.len() && t[i] == v;
        if i < s.len() {
            assert(s[i] == v);
        }
    }
    assert(t[s.len() as int] == x);
}

/// A collection of constant size that is created while records are addressed directly is
/// addressed directly too, from its first record on. Nothing else comes of creating one.
pub proof fn a_collection_created_is_addressed_as_the_others_are(
    a: Database,
    b: Database,
    c: Seq<char>,
    schema: SchemaModel,
    direct_lookup: bool,
    other: Seq<char>,
)
    requires
        created(a, b, c, schema, direct_lookup),
        other != c,
    ensures
        schema.mode is Fixed && direct_lookup && addressable(schema) ==> (b.derived.array_of(c) matches Some(
            x,
        ) && x.schema == schema && x.slots.dom().is_empty()),
        !(schema.mode is Fixed) || !direct_lookup ==> b == a,
        b.derived.array_of(other) == a.derived.array_of(other),
        b.derived.columns_of(c) == a.derived.columns_of(c),
        b.derived.indexes_of(c) == a.derived.indexes_of(c),
{
    if schema.mode is Fixed && direct_lookup && addressable(schema) {
        assert(b.derived.direct.of(other) == a.derived.direct.of(other));
        assert(b.derived.array_of(c)->Some_0.slots.dom() =~= Set::empty());
    }
}

} // verus!
