//! Carrying out what the optimizer decided.
//!
//! What an experiment builds is noted as it is built, so that exactly what was built
//! is hidden. What is left for storage to do is handed back.

use vstd::prelude::*;
use crate::action::{Action, ActionModel};
use crate::assoc::lemma_find_some;
use crate::caches::{
    excess, raised_by, rows_model, trimmed, CacheStats, FifoModel, PlanCache, ResultCache, Rows,
};
use crate::column::columns_of;
use crate::database::Database;
use crate::derived::{agrees_with, array_faithful, columns_faithful, Derived};
use crate::direct::{addressable, an_array_is_of_every_row, array_of, misfit};
use crate::error::{Error, ErrorModel};
use crate::expr::Expr;
use crate::index::{askable, evaluates, Keeps, Records};
use crate::indexing::{index_outcome, only_indexes, without_index};
use crate::infer::{concluded, field_names, inferred_from, schema_for, InferredSchema};
use crate::managing::{
    already_text, dropped_plans, dropping_an_index_keeps_agreement, freeze_schema,
    making_an_index_keeps_agreement, no_paths, replanned,
};
use crate::proving::{a_columnar_copy_is_counted, footprint};
use crate::record::{record_models, Record, RecordModel};
use crate::rows::{ascending, RowsModel};
use crate::schema::{accepts, all_declarable, rigidity_of, SchemaMode};
use crate::structures::{
    a_built_array_agrees, a_built_copy_agrees, all_reachable, arrays_built, collections,
    copies_built, Arrays, Collection, CollectionModel, Copies,
};
use crate::text::str_eq;
use crate::trials::{hidden_after, TrialsModel};
use crate::verify::records_of;

verus! {

/// What is left for storage to do.
pub enum Remaining {
    Nothing,
    /// Remember that there is such an index.
    RecordIndex,
    /// Forget that there was one.
    ForgetIndex,
    SetPoolPages(usize),
    /// Store a collection under this schema; what was derived from it goes when
    /// that is done.
    Freeze(InferredSchema),
    PlaceBy,
    PlaceAnywhere,
    DeltaEncoding(bool),
    ThreadPerCore(bool),
    /// Switch compression, and store every record again.
    Compression(bool),
    Prefetch(bool),
}

/// The collection of a name.
pub open spec fn named_collection(s: Seq<CollectionModel>, name: Seq<char>) -> Option<CollectionModel>
    decreases s.len(),
{
    if s.len() == 0 {
        None
    } else if s[0].name == name {
        Some(s[0])
    } else {
        named_collection(s.skip(1), name)
    }
}

fn find_collection<'a>(all: &'a Vec<Collection>, name: &str) -> (r: Option<&'a Collection>)
    ensures
        match named_collection(collections(all@), name@) {
            Some(m) => r matches Some(c) && c@ == m && all@.contains(*c),
            None => r is None,
        },
{
    let ghost s = collections(all@);
    assert(s.skip(0) =~= s);
    let mut i: usize = 0;
    while i < all.len()
        invariant
            i <= all@.len(),
            s == collections(all@),
            named_collection(s, name@) == named_collection(s.skip(i as int), name@),
        decreases all@.len() - i,
    {
        assert(s.skip(i as int)[0] == all@[i as int]@);
        assert(s.skip(i as int).skip(1) =~= s.skip(i + 1));
        if str_eq(all[i].name.as_str(), name) {
            assert(all@.contains(all@[i as int]));
            return Some(&all[i]);
        }
        i += 1;
    }
    None
}

/// Whether some collection's records are of constant size.
pub open spec fn some_fixed(s: Seq<CollectionModel>) -> bool {
    exists|i: int| 0 <= i < s.len() && (#[trigger] s[i]).schema.mode == SchemaMode::Fixed
}

/// Whether a change can be carried out.
pub open spec fn applicable(a: ActionModel, s: Seq<CollectionModel>) -> bool {
    match a {
        ActionModel::CreateIndex { collection, .. } => named_collection(s, collection) is Some,
        ActionModel::DropIndex { collection, .. } => named_collection(s, collection) is Some,
        ActionModel::SetDirectLookup(true) => some_fixed(s),
        _ => true,
    }
}

/// The names of the collections whose records are of constant size.
pub open spec fn fixed_names(s: Seq<CollectionModel>) -> Seq<Seq<char>>
    decreases s.len(),
{
    if s.len() == 0 {
        Seq::empty()
    } else if s.last().schema.mode == SchemaMode::Fixed {
        fixed_names(s.drop_last()).push(s.last().name)
    } else {
        fixed_names(s.drop_last())
    }
}

/// The names of the collections whose records are of constant size.
pub fn fixed_size_collections(all: &Vec<Collection>) -> (out: Vec<String>)
    ensures
        crate::text::texts(out@) == fixed_names(collections(all@)),
{
    let ghost s = collections(all@);
    let mut out: Vec<String> = Vec::new();
    let mut i: usize = 0;
    assert(s.take(0) =~= Seq::empty());
    assert(crate::text::texts(out@) =~= Seq::empty());
    while i < all.len()
        invariant
            i <= all@.len(),
            s == collections(all@),
            crate::text::texts(out@) == fixed_names(s.take(i as int)),
        decreases all@.len() - i,
    {
        let ghost held = out@;
        assert(s.take(i + 1).drop_last() =~= s.take(i as int));
        assert(s.take(i + 1).last() == all@[i as int]@);
        let fixed = match all[i].schema.mode() {
            SchemaMode::Fixed => true,
            _ => false,
        };
        if fixed {
            out.push(all[i].name.clone());
            assert(crate::text::texts(out@) =~= crate::text::texts(held).push(all@[i as int].name@));
        }
        i += 1;
    }
    assert(s.take(i as int) =~= s);
    out
}

/// Whether a change can be carried out, given the collections there are.
pub fn can_apply(action: &Action, all: &Vec<Collection>) -> (r: bool)
    ensures
        r == applicable(action@, collections(all@)),
{
    match action {
        Action::CreateIndex { collection, .. } => find_collection(all, collection.as_str()).is_some(),
        Action::DropIndex { collection, .. } => find_collection(all, collection.as_str()).is_some(),
        Action::SetDirectLookup(on) => if *on {
            let ghost s = collections(all@);
            let mut i: usize = 0;
            while i < all.len()
                invariant
                    i <= all@.len(),
                    s == collections(all@),
                    forall|k: int|
                        0 <= k < i ==> (#[trigger] s[k]).schema.mode != SchemaMode::Fixed,
                    action@ == ActionModel::SetDirectLookup(true),
                decreases all@.len() - i,
            {
                assert(s[i as int] == all@[i as int]@);
                match all[i].schema.mode() {
                    SchemaMode::Fixed => {
                        return true;
                    },
                    _ => {},
                }
                i += 1;
            }
            false
        } else {
            true
        },
        _ => true,
    }
}

/// The records of a collection, or none where there is no such collection.
pub open spec fn rows_named(s: Seq<CollectionModel>, name: Seq<char>) -> RowsModel {
    match named_collection(s, name) {
        Some(c) => c.rows,
        None => Seq::empty(),
    }
}

/// What came of making an index, by what is left to do.
pub open spec fn made_of(r: Result<Remaining, Error>) -> Result<bool, Error> {
    match r {
        Err(e) => Err(e),
        Ok(Remaining::RecordIndex) => Ok(true),
        Ok(_) => Ok(false),
    }
}

/// Whether a cache of plans was resized.
pub open spec fn resized_plans(a: PlanCache, b: PlanCache, n: usize) -> bool {
    let m = FifoModel { capacity: n as nat, ..a.model() };
    &&& b.model() == trimmed(m)
    &&& b.counters() == (CacheStats {
        evictions: raised_by(a.counters().evictions, excess(m)),
        ..a.counters()
    })
}

/// Whether a cache of results was resized.
pub open spec fn resized_results(a: ResultCache, b: ResultCache, n: usize) -> bool {
    let m = FifoModel { capacity: n as nat, ..a.model() };
    &&& b.model() == trimmed(m)
    &&& b.counters() == (CacheStats {
        evictions: raised_by(a.counters().evictions, excess(m)),
        ..a.counters()
    })
}

/// What is refused of freezing a collection, if anything is.
pub open spec fn freeze_fault(s: Seq<CollectionModel>, c: Seq<char>, headroom: nat) -> Option<ErrorModel> {
    match named_collection(s, c) {
        None => Some(ErrorModel::NoSuchCollection(c)),
        Some(m) => {
            let to = frozen(m, headroom);
            if rigidity_of(to.mode) <= rigidity_of(m.schema.mode) {
                Some(ErrorModel::InvalidOptimization(already_text(c, m.schema.mode, to.mode)))
            } else {
                None
            }
        },
    }
}

/// The records of rows, in their order.
pub open spec fn records_of_rows(rows: RowsModel) -> Seq<RecordModel> {
    rows.map_values(|p: (u64, RecordModel)| p.1)
}

/// The most rigid schema a collection's records support.
pub open spec fn frozen(m: CollectionModel, headroom: nat) -> crate::schema::SchemaModel {
    let recs = records_of_rows(m.rows);
    schema_for(concluded(recs, field_names(recs), headroom))
}

/// Whether carrying a change out came to this. `m` is the state before it, but for
/// what it made an experiment hide.
pub open spec fn carried_out<E: Fn(&Expr, &Record) -> bool>(
    m: Database,
    b: Database,
    action: ActionModel,
    s: Seq<CollectionModel>,
    headroom: nat,
    eval: E,
    r: Result<Remaining, Error>,
) -> bool {
    match action {
        ActionModel::CreateIndex { collection, field, kind } => {
            &&& index_outcome(
                m.derived,
                b.derived,
                made_of(r),
                collection,
                named_collection(s, collection) is Some,
                field,
                kind,
                None,
                rows_named(s, collection),
                eval,
            )
            &&& if r matches Ok(Remaining::RecordIndex) {
                replanned(m, b, collection, true, false)
            } else {
                b == m && (r is Err || r == Ok::<Remaining, Error>(Remaining::Nothing))
            }
        },
        ActionModel::DropIndex { collection, field, kind } => {
            &&& only_indexes(m.derived, b.derived, collection)
            &&& b.derived.indexes_of(collection) == without_index(
                m.derived.indexes_of(collection),
                field,
                kind,
            )
            &&& if b.derived.indexes_of(collection).len() != m.derived.indexes_of(collection).len() {
                r == Ok::<Remaining, Error>(Remaining::ForgetIndex) && replanned(
                    m,
                    b,
                    collection,
                    true,
                    false,
                )
            } else {
                r == Ok::<Remaining, Error>(Remaining::Nothing) && b == (Database {
                    derived: b.derived,
                    ..m
                })
            }
        },
        ActionModel::SetBufferPoolPages(n) => r == Ok::<Remaining, Error>(
            Remaining::SetPoolPages(n),
        ) && b == m,
        ActionModel::SetPlanCacheEntries(n) => r == Ok::<Remaining, Error>(Remaining::Nothing) && b
            == (Database { plan_cache: b.plan_cache, ..m }) && resized_plans(
            m.plan_cache,
            b.plan_cache,
            n,
        ),
        ActionModel::SetResultCacheEntries(n) => r == Ok::<Remaining, Error>(Remaining::Nothing)
            && b == (Database { result_cache: b.result_cache, ..m }) && resized_results(
            m.result_cache,
            b.result_cache,
            n,
        ),
        ActionModel::SetDirectLookup(on) => {
            &&& b == (Database {
                derived: Derived { direct: b.derived.direct, ..m.derived },
                ..m
            })
            &&& if on {
                let (built, ok) = arrays_built(m.derived.arrays(), s, s.len() as int);
                b.derived.arrays() == built && if ok {
                    r == Ok::<Remaining, Error>(Remaining::Nothing)
                } else {
                    r matches Err(e) && e@ == ErrorModel::InvalidSchema(misfit())
                }
            } else {
                r == Ok::<Remaining, Error>(Remaining::Nothing) && forall|c: Seq<char>| #[trigger]
                    b.derived.array_of(c) is None
            }
        },
        ActionModel::FreezeSchema { collection } => b == m && match freeze_fault(
            s,
            collection,
            headroom,
        ) {
            Some(f) => r matches Err(e) && e@ == f,
            None => r matches Ok(Remaining::Freeze(i)) && inferred_from(
                i,
                records_of_rows(named_collection(s, collection)->Some_0.rows),
                headroom,
            ),
        },
        ActionModel::SetClusterField { collection, field } => {
            &&& b == (Database { cluster_fields: b.cluster_fields, ..m })
            &&& if named_collection(s, collection) is Some {
                &&& r == Ok::<Remaining, Error>(Remaining::PlaceBy)
                &&& b.cluster_fields.of(collection) matches Some(f) && f@ == field
                &&& forall|other: Seq<char>|
                    other != collection ==> #[trigger] b.cluster_fields.of(other)
                        == m.cluster_fields.of(other)
            } else {
                r matches Err(e) && e@ == ErrorModel::NoSuchCollection(collection) && b == m
            }
        },
        ActionModel::ClearClusterField { collection } => {
            &&& r == Ok::<Remaining, Error>(Remaining::PlaceAnywhere)
            &&& b == (Database { cluster_fields: b.cluster_fields, ..m })
            &&& b.cluster_fields.of(collection) is None
            &&& forall|other: Seq<char>|
                other != collection ==> #[trigger] b.cluster_fields.of(other)
                    == m.cluster_fields.of(other)
        },
        ActionModel::SetDeltaEncoding(on) => r == Ok::<Remaining, Error>(
            Remaining::DeltaEncoding(on),
        ) && b == (Database { delta_encoding: on, ..m }),
        ActionModel::SetThreadPerCore(on) => r == Ok::<Remaining, Error>(
            Remaining::ThreadPerCore(on),
        ) && b == (Database { thread_per_core: on, ..m }),
        ActionModel::SetColumnStore(on) => {
            &&& r == Ok::<Remaining, Error>(Remaining::Nothing)
            &&& b == (Database {
                derived: Derived { columns: b.derived.columns, ..m.derived },
                plan_cache: b.plan_cache,
                compiled: b.compiled,
                ..m
            })
            &&& dropped_plans(m.plan_cache, b.plan_cache)
            &&& b.compiled@ == no_paths(m.compiled@)
            &&& if on {
                b.derived.copies() == copies_built(m.derived.copies(), s, s.len() as int)
            } else {
                forall|c: Seq<char>| #[trigger] b.derived.columns_of(c) is None
            }
        },
        ActionModel::SetMaterializedViews(on) => {
            &&& r == Ok::<Remaining, Error>(Remaining::Nothing)
            &&& b == (Database { derived: Derived { views: b.derived.views, ..m.derived }, ..m })
            &&& b.derived.views.enabled() == on
            &&& b.derived.views.views() == if on {
                m.derived.views.views()
            } else {
                Seq::empty()
            }
        },
        ActionModel::SetRecordCompression(on) => r == Ok::<Remaining, Error>(
            Remaining::Compression(on),
        ) && b == m,
        ActionModel::SetPrefetch(on) => r == Ok::<Remaining, Error>(Remaining::Prefetch(on)) && b
            == m,
        ActionModel::SetJoinOrder(on) => r == Ok::<Remaining, Error>(Remaining::Nothing) && b == (
        Database { join_order: on, ..m }),
        ActionModel::SetDataPartitioning(on) => r == Ok::<Remaining, Error>(Remaining::Nothing) && b
            == (Database { data_partitioning: on, ..m }),
    }
}

/// Whether collections are as storage hands them over: records in the order of their
/// ids, schemas that were accepted, ids that have a place in memory.
pub open spec fn presentable(all: Seq<Collection>) -> bool {
    forall|i: int|
        0 <= i < all.len() ==> ascending((#[trigger] all[i])@.rows) && all_declarable(
            all[i]@.schema.mode,
            all[i]@.schema.fields,
        ) && all_reachable(all[i]@)
}

fn records_in(rows: &Rows) -> (out: Vec<Record>)
    ensures
        record_models(out@) == rows_model(rows@).map_values(|p: (u64, RecordModel)| p.1),
{
    let mut out: Vec<Record> = Vec::new();
    let mut i: usize = 0;
    while i < rows.len()
        invariant
            i <= rows@.len(),
            out@.len() == i,
            forall|k: int| 0 <= k < i ==> (#[trigger] out@[k]).model() == rows@[k].1.model(),
        decreases rows@.len() - i,
    {
        out.push(rows[i].1.dup());
        i += 1;
    }
    assert(record_models(out@) =~= rows_model(rows@).map_values(|p: (u64, RecordModel)| p.1));
    out
}

impl Database {
    /// Carry a change out, given every collection there is.
    pub fn apply_action<E: Fn(&Expr, &Record) -> bool>(
        &mut self,
        action: &Action,
        all: &Vec<Collection>,
        headroom: usize,
        eval: &E,
    ) -> (r: Result<Remaining, Error>)
        requires
            old(self).wf(),
            presentable(all@),
            askable(*eval),
        ensures
            final(self).wf(),
            final(self).trials@ == (TrialsModel {
                hidden: hidden_after(old(self).trials@, action@),
                ..old(self).trials@
            }),
            carried_out(
                (Database { trials: final(self).trials, ..*old(self) }),
                *final(self),
                action@,
                collections(all@),
                headroom as nat,
                *eval,
                r,
            ),
    {
        self.trials.record_action(action);
        match action {
            Action::CreateIndex { collection, field, kind } => {
                let name = collection.as_str();
                let none: Rows = Vec::new();
                assert(rows_model(none@) =~= Seq::empty());
                let r = match find_collection(all, name) {
                    Some(c) => {
                        assert(exists|i: int| 0 <= i < all@.len() && all@[i] == *c);
                        self.create_index(name, true, field.as_str(), *kind, &c.rows, eval)
                    },
                    None => self.create_index(name, false, field.as_str(), *kind, &none, eval),
                };
                match r {
                    Ok(made) => if made {
                        Ok(Remaining::RecordIndex)
                    } else {
                        Ok(Remaining::Nothing)
                    },
                    Err(e) => Err(e),
                }
            },
            Action::DropIndex { collection, field, kind } => {
                if self.drop_index(collection.as_str(), field.as_str(), *kind) {
                    Ok(Remaining::ForgetIndex)
                } else {
                    Ok(Remaining::Nothing)
                }
            },
            Action::SetBufferPoolPages(n) => Ok(Remaining::SetPoolPages(*n)),
            Action::SetPlanCacheEntries(n) => {
                self.plan_cache.set_capacity(*n);
                Ok(Remaining::Nothing)
            },
            Action::SetResultCacheEntries(n) => {
                self.result_cache.set_capacity(*n);
                Ok(Remaining::Nothing)
            },
            Action::SetDirectLookup(on) => {
                if *on {
                    match self.derived.enable_direct_lookup(all) {
                        Ok(_) => Ok(Remaining::Nothing),
                        Err(e) => Err(e),
                    }
                } else {
                    self.derived.disable_direct_lookup();
                    Ok(Remaining::Nothing)
                }
            },
            Action::FreezeSchema { collection } => {
                let name = collection.as_str();
                match find_collection(all, name) {
                    None => Err(Error::NoSuchCollection(name.to_owned())),
                    Some(c) => {
                        let recs = records_in(&c.rows);
                        match freeze_schema(name, &recs, headroom, c.schema.mode()) {
                            Ok(i) => Ok(Remaining::Freeze(i)),
                            Err(e) => Err(e),
                        }
                    },
                }
            },
            Action::SetClusterField { collection, field } => {
                let name = collection.as_str();
                let known = find_collection(all, name).is_some();
                match self.declare_cluster_field(name, known, field.as_str()) {
                    Ok(_) => Ok(Remaining::PlaceBy),
                    Err(e) => Err(e),
                }
            },
            Action::ClearClusterField { collection } => {
                self.clear_cluster_field(collection.as_str());
                Ok(Remaining::PlaceAnywhere)
            },
            Action::SetDeltaEncoding(on) => {
                self.delta_encoding = *on;
                Ok(Remaining::DeltaEncoding(*on))
            },
            Action::SetThreadPerCore(on) => {
                self.thread_per_core = *on;
                Ok(Remaining::ThreadPerCore(*on))
            },
            Action::SetColumnStore(on) => {
                if *on {
                    self.derived.enable_column_store(all);
                } else {
                    self.derived.disable_column_store();
                }
                self.plan_cache.clear();
                self.compiled.clear();
                Ok(Remaining::Nothing)
            },
            Action::SetMaterializedViews(on) => {
                self.derived.views.set_enabled(*on);
                Ok(Remaining::Nothing)
            },
            Action::SetRecordCompression(on) => Ok(Remaining::Compression(*on)),
            Action::SetPrefetch(on) => Ok(Remaining::Prefetch(*on)),
            Action::SetJoinOrder(on) => {
                self.join_order = *on;
                Ok(Remaining::Nothing)
            },
            Action::SetDataPartitioning(on) => {
                self.data_partitioning = *on;
                Ok(Remaining::Nothing)
            },
        }
    }
}

// -- no change breaks agreement ---------------------------------------------------

/// Whether storage presents a collection's records as these, if at all.
pub open spec fn presents(s: Seq<CollectionModel>, c: Seq<char>, t: Records) -> bool {
    forall|i: int|
        0 <= i < s.len() ==> ascending((#[trigger] s[i]).rows) && s[i].rows.len() <= usize::MAX && (
        s[i].name == c ==> t == records_of(s[i].rows))
}

proof fn lemma_presented(s: Seq<CollectionModel>, c: Seq<char>, t: Records)
    requires
        presents(s, c, t),
        named_collection(s, c) is Some,
    ensures
        t == records_of(named_collection(s, c)->Some_0.rows),
    decreases s.len(),
{
    if s[0].name != c {
        let rest = s.skip(1);
        assert forall|i: int| 0 <= i < rest.len() implies ascending((#[trigger] rest[i]).rows)
            && rest[i].rows.len() <= usize::MAX && (rest[i].name == c ==> t == records_of(
            rest[i].rows,
        )) by {
            assert(rest[i] == s[i + 1]);
        }
        lemma_presented(rest, c, t);
    }
}

proof fn lemma_arrays_agree(
    a: Arrays,
    s: Seq<CollectionModel>,
    n: int,
    c: Seq<char>,
    t: Records,
)
    requires
        0 <= n <= s.len(),
        presents(s, c, t),
        a.dom().contains(c) ==> array_faithful(a[c], t),
    ensures
        arrays_built(a, s, n).0.dom().contains(c) ==> array_faithful(
            arrays_built(a, s, n).0[c],
            t,
        ),
    decreases n,
{
    if n > 0 {
        lemma_arrays_agree(a, s, n - 1, c, t);
        let x = s[n - 1];
        if array_of(x.schema, x.rows) is Some {
            a_built_array_agrees(x.schema, x.rows);
        }
    }
}

proof fn lemma_copies_agree(
    m: Copies,
    s: Seq<CollectionModel>,
    n: int,
    c: Seq<char>,
    t: Records,
)
    requires
        0 <= n <= s.len(),
        presents(s, c, t),
        m.dom().contains(c) ==> columns_faithful(m[c], t),
    ensures
        copies_built(m, s, n).dom().contains(c) ==> columns_faithful(copies_built(m, s, n)[c], t),
    decreases n,
{
    if n > 0 {
        lemma_copies_agree(m, s, n - 1, c, t);
        a_built_copy_agrees(s[n - 1].rows);
    }
}

/// No change to how records are kept changes what is said of them: where everything
/// derived from a collection says what its records say, it still does once a change,
/// any change, was carried out or refused.
pub proof fn a_change_keeps_agreement<E: Fn(&Expr, &Record) -> bool>(
    m: Database,
    b: Database,
    action: ActionModel,
    s: Seq<CollectionModel>,
    headroom: nat,
    eval: E,
    r: Result<Remaining, Error>,
    keeps: Keeps,
    c: Seq<char>,
    t: Records,
)
    requires
        carried_out(m, b, action, s, headroom, eval, r),
        evaluates(eval, keeps),
        presents(s, c, t),
        agrees_with(m.derived, keeps, c, t),
    ensures
        agrees_with(b.derived, keeps, c, t),
{
    let (x, y) = (m.derived, b.derived);
    match action {
        ActionModel::CreateIndex { collection, field, kind } => {
            if collection != c {
                assert(y.indexes_of(c) == x.indexes_of(c));
            } else if r matches Ok(Remaining::RecordIndex) {
                lemma_presented(s, c, t);
                making_an_index_keeps_agreement(x, y, keeps, c, t);
            }
        },
        ActionModel::DropIndex { collection, field, kind } => {
            if collection != c {
                assert(y.indexes_of(c) == x.indexes_of(c));
            } else {
                dropping_an_index_keeps_agreement(x, y, keeps, c, t, field, kind);
            }
        },
        ActionModel::SetDirectLookup(on) => {
            assert(y.indexes_of(c) == x.indexes_of(c));
            assert(y.columns_of(c) == x.columns_of(c));
            if on {
                lemma_arrays_agree(x.arrays(), s, s.len() as int, c, t);
                assert(y.arrays().dom().contains(c) <==> y.array_of(c) is Some);
            } else {
                assert(y.array_of(c) is None);
            }
        },
        ActionModel::SetColumnStore(on) => {
            assert(y.indexes_of(c) == x.indexes_of(c));
            assert(y.array_of(c) == x.array_of(c));
            if on {
                lemma_copies_agree(x.copies(), s, s.len() as int, c, t);
                assert(y.copies().dom().contains(c) <==> y.columns_of(c) is Some);
            } else {
                assert(y.columns_of(c) is None);
            }
        },
        ActionModel::SetMaterializedViews(_) => {
            assert(y.indexes_of(c) == x.indexes_of(c));
            assert(y.array_of(c) == x.array_of(c));
            assert(y.columns_of(c) == x.columns_of(c));
        },
        _ => {},
    }
}

// -- what a change takes --------------------------------------------------------------

proof fn lemma_copy_of(m: Copies, s: Seq<CollectionModel>, n: int, i: int)
    requires
        0 <= i < n <= s.len(),
        forall|j: int| i < j < n ==> (#[trigger] s[j]).name != s[i].name,
    ensures
        copies_built(m, s, n).dom().contains(s[i].name),
        copies_built(m, s, n)[s[i].name] == columns_of(s[i].rows),
    decreases n,
{
    if i < n - 1 {
        lemma_copy_of(m, s, n - 1, i);
        assert(s[n - 1].name != s[i].name);
    }
}

proof fn lemma_rows_of_copy(rows: RowsModel)
    ensures
        columns_of(rows).ids.len() == rows.len(),
    decreases rows.len(),
{
    if rows.len() > 0 {
        lemma_rows_of_copy(rows.drop_last());
    }
}

/// Every derived structure is counted: switching columnar copies on, where there were
/// none and some collection holds a record, takes more than was taken before, so long as
/// that could be counted.
pub proof fn switching_copies_on_is_counted<E: Fn(&Expr, &Record) -> bool>(
    a: Database,
    b: Database,
    s: Seq<CollectionModel>,
    headroom: nat,
    eval: E,
    r: Result<Remaining, Error>,
    i: int,
)
    requires
        carried_out(a, b, ActionModel::SetColumnStore(true), s, headroom, eval, r),
        a.derived.columns.entries().len() == 0,
        0 <= i < s.len(),
        s[i].rows.len() > 0,
        forall|j: int| i < j < s.len() ==> (#[trigger] s[j]).name != s[i].name,
        footprint(a) < usize::MAX,
    ensures
        footprint(b) > footprint(a),
{
    let c = s[i].name;
    lemma_copy_of(a.derived.copies(), s, s.len() as int, i);
    lemma_rows_of_copy(s[i].rows);
    assert(b.derived.copies().dom().contains(c));
    assert(b.derived.columns_of(c) == Some(columns_of(s[i].rows)));
    let e = b.derived.columns.entries();
    let k = lemma_find_some(e, c);
    a_columnar_copy_is_counted(a, b, k);
}

// -- which change is carried out, and how ---------------------------------------------------

/// Whether a collection of a name is among those there are.
pub open spec fn is_among(s: Seq<CollectionModel>, name: Seq<char>) -> bool {
    exists|i: int| 0 <= i < s.len() && (#[trigger] s[i]).name == name
}

proof fn lemma_named_collection(s: Seq<CollectionModel>, name: Seq<char>)
    ensures
        match named_collection(s, name) {
            Some(m) => s.contains(m) && m.name == name,
            None => !is_among(s, name),
        },
    decreases s.len(),
{
    if s.len() > 0 {
        if s[0].name == name {
            assert(s.contains(s[0]));
        } else {
            let rest = s.skip(1);
            lemma_named_collection(rest, name);
            match named_collection(rest, name) {
                Some(m) => {
                    let i = choose|i: int| 0 <= i < rest.len() && rest[i] == m;
                    assert(s[i + 1] == m);
                },
                None => {
                    assert forall|i: int| 0 <= i < s.len() implies (#[trigger] s[i]).name != name by {
                        if i > 0 {
                            assert(rest[i - 1] == s[i]);
                        }
                    }
                },
            }
        }
    }
}

/// A change can be carried out where there is something to carry it out on: an index where
/// its collection is, direct lookup where some collection's records are of constant size.
/// Every other change always can.
pub proof fn a_change_can_be_carried_out_where_it_applies(
    a: ActionModel,
    s: Seq<CollectionModel>,
)
    ensures
        applicable(a, s) <==> match a {
            ActionModel::CreateIndex { collection, .. } => is_among(s, collection),
            ActionModel::DropIndex { collection, .. } => is_among(s, collection),
            ActionModel::SetDirectLookup(on) => on ==> exists|i: int|
                0 <= i < s.len() && (#[trigger] s[i]).schema.mode is Fixed,
            _ => true,
        },
{
    match a {
        ActionModel::CreateIndex { collection, .. } => {
            lemma_named_collection(s, collection);
            if named_collection(s, collection) is Some {
                let m = named_collection(s, collection)->Some_0;
                let i = choose|i: int| 0 <= i < s.len() && s[i] == m;
                assert(s[i].name == collection);
            }
        },
        ActionModel::DropIndex { collection, .. } => {
            lemma_named_collection(s, collection);
            if named_collection(s, collection) is Some {
                let m = named_collection(s, collection)->Some_0;
                let i = choose|i: int| 0 <= i < s.len() && s[i] == m;
                assert(s[i].name == collection);
            }
        },
        _ => {},
    }
}

/// A collection is of constant size where its schema is fixed, and is then named.
pub proof fn fixed_collections_are_named(s: Seq<CollectionModel>, name: Seq<char>)
    ensures
        fixed_names(s).contains(name) <==> exists|i: int|
            0 <= i < s.len() && (#[trigger] s[i]).name == name && s[i].schema.mode is Fixed,
    decreases s.len(),
{
    if s.len() > 0 {
        let rest = s.drop_last();
        fixed_collections_are_named(rest, name);
        let all = fixed_names(s);
        let before = fixed_names(rest);
        if before.contains(name) {
            let i = choose|i: int|
                0 <= i < rest.len() && (#[trigger] rest[i]).name == name && rest[i].schema.mode is Fixed;
            assert(s[i] == rest[i]);
            let k = choose|k: int| 0 <= k < before.len() && before[k] == name;
            assert(all[k] == name);
        }
        if s.last().schema.mode is Fixed {
            assert(all[before.len() as int] == s.last().name);
        }
        if all.contains(name) {
            let k = choose|k: int| 0 <= k < all.len() && all[k] == name;
            if k < before.len() {
                assert(before[k] == name);
            } else {
                assert(s[s.len() - 1] == s.last());
            }
        }
        if exists|i: int| 0 <= i < s.len() && (#[trigger] s[i]).name == name && s[i].schema.mode is Fixed {
            let i = choose|i: int|
                0 <= i < s.len() && (#[trigger] s[i]).name == name && s[i].schema.mode is Fixed;
            if i < rest.len() {
                assert(rest[i] == s[i]);
            }
        }
    }
}

/// A change does what it says and nothing besides: a switch is as it was set, a cache holds
/// no more than it may, a structure that is switched off is gone, and what storage has to do
/// is what was asked.
pub proof fn a_change_does_what_it_says<E: Fn(&Expr, &Record) -> bool>(
    m: Database,
    b: Database,
    action: ActionModel,
    s: Seq<CollectionModel>,
    headroom: nat,
    eval: E,
    r: Result<Remaining, Error>,
    c: Seq<char>,
)
    requires
        carried_out(m, b, action, s, headroom, eval, r),
    ensures
        b.delta_encoding == if action is SetDeltaEncoding {
            action->SetDeltaEncoding_0
        } else {
            m.delta_encoding
        },
        b.thread_per_core == if action is SetThreadPerCore {
            action->SetThreadPerCore_0
        } else {
            m.thread_per_core
        },
        b.join_order == if action is SetJoinOrder {
            action->SetJoinOrder_0
        } else {
            m.join_order
        },
        b.data_partitioning == if action is SetDataPartitioning {
            action->SetDataPartitioning_0
        } else {
            m.data_partitioning
        },
        b.derived.views.enabled() == if action is SetMaterializedViews {
            action->SetMaterializedViews_0
        } else {
            m.derived.views.enabled()
        },
        action == ActionModel::SetMaterializedViews(false) ==> b.derived.views.views().len() == 0,
        action == ActionModel::SetColumnStore(false) ==> b.derived.columns_of(c) is None,
        action == ActionModel::SetDirectLookup(false) ==> b.derived.array_of(c) is None,
        action == ActionModel::SetColumnStore(true) && is_among(s, c) ==> b.derived.columns_of(
            c,
        ) is Some,
        action matches ActionModel::SetPlanCacheEntries(n) ==> b.plan_cache.model().capacity == n,
        action matches ActionModel::SetResultCacheEntries(n) ==> b.result_cache.model().capacity
            == n,
        action matches ActionModel::SetBufferPoolPages(n) ==> r == Ok::<Remaining, Error>(
            Remaining::SetPoolPages(n),
        ),
        action matches ActionModel::SetRecordCompression(on) ==> r == Ok::<Remaining, Error>(
            Remaining::Compression(on),
        ),
        action matches ActionModel::SetPrefetch(on) ==> r == Ok::<Remaining, Error>(
            Remaining::Prefetch(on),
        ),
        action matches ActionModel::SetClusterField { collection, field } ==> (r is Ok <==> is_among(
            s,
            collection,
        )) && (r is Ok ==> (b.cluster_fields.of(collection) matches Some(f) && f@ == field)),
        action matches ActionModel::ClearClusterField { collection } ==> b.cluster_fields.of(
            collection,
        ) is None,
        b.unique_constraints == m.unique_constraints,
        b.epochs == m.epochs,
{
    if action == ActionModel::SetColumnStore(true) {
        lemma_copied(m.derived.copies(), s, s.len() as int, c);
        assert(b.derived.copies().dom().contains(c) <==> b.derived.columns_of(c) is Some);
    }
    if let ActionModel::SetClusterField { collection, field } = action {
        lemma_named_collection(s, collection);
        if named_collection(s, collection) is Some {
            let x = named_collection(s, collection)->Some_0;
            let i = choose|i: int| 0 <= i < s.len() && s[i] == x;
            assert(s[i].name == collection);
        }
    }
}

proof fn lemma_copied(m: Copies, s: Seq<CollectionModel>, n: int, c: Seq<char>)
    requires
        0 <= n <= s.len(),
    ensures
        (exists|i: int| 0 <= i < n && (#[trigger] s[i]).name == c) ==> copies_built(
            m,
            s,
            n,
        ).dom().contains(c),
        m.dom().contains(c) ==> copies_built(m, s, n).dom().contains(c),
    decreases n,
{
    if n > 0 {
        lemma_copied(m, s, n - 1, c);
        if exists|i: int| 0 <= i < n && (#[trigger] s[i]).name == c {
            let i = choose|i: int| 0 <= i < n && (#[trigger] s[i]).name == c;
            if i < n - 1 {
                assert(s[i].name == c);
            }
        }
    }
}

/// A collection is frozen where it is there and its records support a schema more rigid than
/// its own. It is refused where it is not there, saying so, or where it is as rigid already.
pub proof fn a_collection_is_frozen_where_that_is_more_rigid(
    s: Seq<CollectionModel>,
    c: Seq<char>,
    headroom: nat,
)
    ensures
        match freeze_fault(s, c, headroom) {
            None => exists|i: int|
                0 <= i < s.len() && (#[trigger] s[i]).name == c && rigidity_of(
                    frozen(s[i], headroom).mode,
                ) > rigidity_of(s[i].schema.mode),
            Some(ErrorModel::NoSuchCollection(n)) => n == c && !is_among(s, c),
            Some(ErrorModel::InvalidOptimization(_)) => exists|i: int|
                0 <= i < s.len() && (#[trigger] s[i]).name == c && rigidity_of(
                    frozen(s[i], headroom).mode,
                ) <= rigidity_of(s[i].schema.mode),
            Some(_) => false,
        },
{
    lemma_named_collection(s, c);
    if let Some(m) = named_collection(s, c) {
        let i = choose|i: int| 0 <= i < s.len() && s[i] == m;
        assert(s[i].name == c);
    }
}

proof fn lemma_arrays_given(a: Arrays, s: Seq<CollectionModel>, n: int, i: int)
    requires
        0 <= i < n <= s.len(),
        addressable(s[i].schema),
        forall|j: int, k: int|
            #![trigger s[j].rows[k]]
            0 <= j < s.len() && s[j].schema.mode is Fixed && 0 <= k < s[j].rows.len() ==> accepts(
                s[j].schema,
                s[j].rows[k].1,
            ),
    ensures
        arrays_built(a, s, n).1,
        arrays_built(a, s, n).0.dom().contains(s[i].name),
    decreases n,
{
    lemma_arrays_built(a, s, n);
    let x = s[n - 1];
    if x.schema.mode is Fixed {
        an_array_is_of_every_row(x.schema, x.rows);
        assert forall|k: int| 0 <= k < x.rows.len() implies accepts(x.schema, (#[trigger] x.rows[k]).1) by {
            assert(s[n - 1].rows[k] == x.rows[k]);
        }
    }
    if i < n - 1 {
        lemma_arrays_given(a, s, n - 1, i);
    } else {
        lemma_arrays_built(a, s, n - 1);
    }
}

proof fn lemma_arrays_built(a: Arrays, s: Seq<CollectionModel>, n: int)
    requires
        0 <= n <= s.len(),
        forall|j: int, k: int|
            #![trigger s[j].rows[k]]
            0 <= j < s.len() && s[j].schema.mode is Fixed && 0 <= k < s[j].rows.len() ==> accepts(
                s[j].schema,
                s[j].rows[k].1,
            ),
    ensures
        arrays_built(a, s, n).1,
    decreases n,
{
    if n > 0 {
        lemma_arrays_built(a, s, n - 1);
        let x = s[n - 1];
        if x.schema.mode is Fixed {
            an_array_is_of_every_row(x.schema, x.rows);
            assert forall|k: int| 0 <= k < x.rows.len() implies accepts(
                x.schema,
                (#[trigger] x.rows[k]).1,
            ) by {
                assert(s[n - 1].rows[k] == x.rows[k]);
            }
        }
    }
}

/// Switching direct lookup on succeeds where every collection of constant size holds only
/// records that its schema accepts, and gives each of them that can be addressed an array.
pub proof fn switching_lookup_on_gives_every_fixed_collection_an_array<
    E: Fn(&Expr, &Record) -> bool,
>(
    m: Database,
    b: Database,
    s: Seq<CollectionModel>,
    headroom: nat,
    eval: E,
    r: Result<Remaining, Error>,
    i: int,
)
    requires
        carried_out(m, b, ActionModel::SetDirectLookup(true), s, headroom, eval, r),
        0 <= i < s.len(),
        addressable(s[i].schema),
        forall|j: int, k: int|
            #![trigger s[j].rows[k]]
            0 <= j < s.len() && s[j].schema.mode is Fixed && 0 <= k < s[j].rows.len() ==> accepts(
                s[j].schema,
                s[j].rows[k].1,
            ),
    ensures
        r is Ok,
        b.derived.array_of(s[i].name) is Some,
{
    lemma_arrays_given(m.derived.arrays(), s, s.len() as int, i);
    assert(b.derived.arrays().dom().contains(s[i].name) <==> b.derived.array_of(s[i].name) is Some);
}

} // verus!
