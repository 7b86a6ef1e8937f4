//! Answering a query.
//!
//! A query goes through what could answer it at once: a specialised path for one
//! record by identity, a view, a kept result. Where nothing does, it is planned,
//! by a decision kept for its shape or a new one, and what came of it is kept.

use vstd::prelude::*;
use vstd::string::*;
use crate::caches::{
    a_cache_keeps_what_it_was_given, dropping_an_entry_drops_no_other, dup_rows, excess, raised_by, rows_model, ticked, trimmed, with_entry, without_entry,
    AccessDecision, CacheStats, FifoModel, PlanCache, PlanDecision, ResultCache, ResultEntry, Rows,
};
use crate::compiled::{
    seen_count, specialisation, CompiledModel, CompiledPaths, HOT_THRESHOLD,
};
use crate::database::{changed_in, epoch_of, Database};
use crate::derived::Derived;
use crate::direct::reads_record;
use crate::error::{Error, ErrorModel};
use crate::matview::{
    a_query_finds_its_view, answer_rows, budgets_over, definition, row_models, view_for, AnswerRow,
    MaterializedView, MaterializedViews,
};
use crate::observe::{lessons, note_filtered_fields, notes, Note, Observation};
use crate::plan::{collection_of, contains_join, count_joins, joins_in, LogicalOp, OpModel};
use crate::record::{record_models, Record, RecordModel};
use crate::rows::RowsModel;
use crate::text::push_dec;
use crate::trials::{routed, Routing};

verus! {

// -- modes --------------------------------------------------------------------

/// How a query is answered.
#[derive(Clone, Copy, Debug, PartialEq, Eq, Structural)]
pub enum QueryMode {
    /// As any query is.
    Normal,
    /// For a caller, while an experiment measures it: nothing may answer it that
    /// would hide which path was taken.
    Served,
    /// To be compared, and not for a caller.
    Trial,
}

impl QueryMode {
    /// Whether anything kept may answer the query.
    pub fn uses_caches(&self) -> (r: bool)
        ensures
            r == (*self == QueryMode::Normal),
    {
        match self {
            QueryMode::Normal => true,
            _ => false,
        }
    }

    /// Whether the query says something about the workload.
    pub fn is_counted(&self) -> (r: bool)
        ensures
            r == (*self != QueryMode::Trial),
    {
        match self {
            QueryMode::Trial => false,
            _ => true,
        }
    }
}

// -- the way a query goes -------------------------------------------------------

/// Which way a query goes.
#[derive(Clone, Copy, Debug, PartialEq, Eq, Structural)]
pub enum Path {
    /// It joins two collections, and nothing kept is about that.
    Join,
    Single(Routing),
}

/// What is refused of joins.
pub open spec fn one_join_only() -> Seq<char> {
    "nested or multi-way joins are not implemented yet; a query may contain one Join"@
}

impl Database {
    /// Decide which way a query goes. A join never takes part in an experiment.
    pub fn query(&mut self, op: &LogicalOp) -> (r: Result<Path, Error>)
        requires
            old(self).wf(),
        ensures
            final(self).wf(),
            *final(self) == (Database { trials: final(self).trials, ..*old(self) }),
            if joins_in(op.model()) > 1 {
                r matches Err(e) && e@ == ErrorModel::Unsupported(one_join_only())
                    && final(self).trials == old(self).trials
            } else if joins_in(op.model()) == 1 {
                r == Ok::<Path, Error>(Path::Join) && final(self).trials == old(self).trials
            } else {
                let (m, way) = routed(old(self).trials@, collection_of(op.model()));
                r == Ok::<Path, Error>(Path::Single(way)) && final(self).trials@ == m
            },
    {
        if contains_join(op) {
            if count_joins(op) > 1 {
                return Err(
                    Error::Unsupported(
                        "nested or multi-way joins are not implemented yet; a query may contain one Join".to_owned(),
                    ),
                );
            }
            return Ok(Path::Join);
        }
        Ok(Path::Single(self.trials.experiment_query(op.collection())))
    }
}

// -- answering at once ------------------------------------------------------------

/// What is kept that could answer a query, or tell how.
#[derive(Clone, Copy, Debug, PartialEq, Eq, Structural)]
pub enum CacheName {
    Results,
    Plans,
}

impl CacheName {
    pub open spec fn text(&self) -> Seq<char> {
        match self {
            CacheName::Results => "result_cache"@,
            CacheName::Plans => "plan_cache"@,
        }
    }

    pub fn as_str(&self) -> (s: &'static str)
        ensures
            s@ == self.text(),
    {
        match self {
            CacheName::Results => "result_cache",
            CacheName::Plans => "plan_cache",
        }
    }
}

/// Something to tell of a query.
pub enum QueryEvent {
    Observed(Observation),
    CacheProbe { name: CacheName, hit: bool },
}

pub enum EventModel {
    Observed(Note),
    CacheProbe { name: CacheName, hit: bool },
}

impl View for QueryEvent {
    type V = EventModel;

    open spec fn view(&self) -> EventModel {
        match self {
            QueryEvent::Observed(o) => EventModel::Observed(o@),
            QueryEvent::CacheProbe { name, hit } => EventModel::CacheProbe {
                name: *name,
                hit: *hit,
            },
        }
    }
}

pub open spec fn events(s: Seq<QueryEvent>) -> Seq<EventModel> {
    s.map_values(|e: QueryEvent| e@)
}

/// How a query begins.
pub enum Opening {
    /// One record by identity, over a specialised path: what an array gave, or
    /// nothing where storage has to be asked.
    Identity { id: u64, found: Option<Result<Option<Record>, Error>> },
    /// A view's answer.
    View(Vec<AnswerRow>),
    /// A kept result.
    Kept(Rows),
    /// It has to be executed, by a kept decision or a new one.
    Plan(Option<PlanDecision>),
}

/// What answers a query.
pub enum Stage {
    Identity(u64),
    View(MaterializedView),
    Kept(RowsModel),
    Plan,
}

/// Whether a kept result is of a query at an epoch.
pub open spec fn kept_at(m: FifoModel<ResultEntry>, key: u64, epoch: u64) -> bool {
    m.capacity > 0 && m.entries.contains_key(key) && m.entries[key].epoch() == epoch
}

/// What answers a query: the first of these that can.
pub open spec fn stage(db: Database, op: OpModel, shape: u64, key: u64, mode: QueryMode) -> Stage {
    let views = db.derived.views;
    let kept = db.result_cache.model();
    if mode == QueryMode::Normal && db.compiled@.paths.contains_key(shape) && op is GetById {
        Stage::Identity(op->GetById_id)
    } else if views.enabled() && view_for(views.views(), op) is Some && view_for(
        views.views(),
        op,
    )->Some_0.exact() {
        Stage::View(view_for(views.views(), op)->Some_0)
    } else if mode == QueryMode::Normal && kept_at(kept, key, epoch_of(db.epochs, collection_of(op))) {
        Stage::Kept(rows_model(kept.entries[key].rows()))
    } else {
        Stage::Plan
    }
}

/// What is told of a query that begins.
pub open spec fn opening_events(db: Database, op: OpModel, s: Stage, shape: u64, mode: QueryMode)
    -> Seq<EventModel> {
    let told = if mode != QueryMode::Trial {
        lessons(op).map_values(|n: Note| EventModel::Observed(n))
    } else {
        Seq::empty()
    };
    match s {
        Stage::Identity(_) => Seq::empty(),
        Stage::View(_) => told,
        Stage::Kept(_) => told.push(
            EventModel::CacheProbe { name: CacheName::Results, hit: true },
        ),
        Stage::Plan => if mode == QueryMode::Normal {
            told.push(EventModel::CacheProbe { name: CacheName::Results, hit: false }).push(
                EventModel::CacheProbe {
                    name: CacheName::Plans,
                    hit: kept_decision(db.plan_cache, shape),
                },
            )
        } else {
            told
        },
    }
}

/// Whether a decision is kept for a shape.
pub open spec fn kept_decision(c: PlanCache, shape: u64) -> bool {
    c.model().capacity > 0 && c.model().entries.contains_key(shape)
}

/// Whether specialised paths took notice of a query of a shape.
pub open spec fn noticed(a: CompiledModel, b: CompiledModel, shape: u64, op: OpModel, direct: bool)
    -> bool {
    if a.paths.contains_key(shape) {
        b == (CompiledModel { hits: ticked(a.hits), ..a })
    } else {
        let n = ticked(seen_count(a, shape));
        match specialisation(op, direct) {
            Some(p) if n >= HOT_THRESHOLD => {
                &&& b.paths == a.paths.insert(shape, b.paths[shape])
                &&& b.paths[shape]@ == p
                &&& b.counts == a.counts.remove(shape)
                &&& b.hits == a.hits
                &&& b.compilations == ticked(a.compilations)
            },
            _ => b == (CompiledModel { counts: a.counts.insert(shape, n), ..a }),
        }
    }
}

/// Whether kept results are what they were after one was asked for.
pub open spec fn asked_results(a: ResultCache, b: ResultCache, key: u64, epoch: u64) -> bool {
    let m = a.model();
    let s = a.counters();
    if m.capacity == 0 {
        b.model() == m && b.counters() == s
    } else if !m.entries.contains_key(key) {
        b.model() == m && b.counters() == (CacheStats { misses: ticked(s.misses), ..s })
    } else if m.entries[key].epoch() != epoch {
        b.model() == without_entry(m, key) && b.counters() == (CacheStats {
            misses: ticked(s.misses),
            invalidations: ticked(s.invalidations),
            ..s
        })
    } else {
        b.model() == m && b.counters() == (CacheStats { hits: ticked(s.hits), ..s })
    }
}

/// Whether kept decisions are what they were after one was asked for.
pub open spec fn asked_plans(a: PlanCache, b: PlanCache, shape: u64) -> bool {
    let s = a.counters();
    &&& b.model() == a.model()
    &&& b.counters() == if a.model().capacity == 0 {
        s
    } else if a.model().entries.contains_key(shape) {
        CacheStats { hits: ticked(s.hits), ..s }
    } else {
        CacheStats { misses: ticked(s.misses), ..s }
    }
}

fn tell_all(list: Vec<Observation>) -> (out: Vec<QueryEvent>)
    ensures
        events(out@) == notes(list@).map_values(|n: Note| EventModel::Observed(n)),
{
    let ghost all = list@;
    let mut list = list;
    let mut back: Vec<QueryEvent> = Vec::new();
    while list.len() > 0
        invariant
            list@ == all.take(list@.len() as int),
            list@.len() <= all.len(),
            back@.len() + list@.len() == all.len(),
            forall|k: int|
                0 <= k < back@.len() ==> (#[trigger] back@[k])@ == EventModel::Observed(
                    all[all.len() - 1 - k]@,
                ),
        decreases list@.len(),
    {
        let ghost n = list@.len() as int;
        match list.pop() {
            Some(o) => {
                assert(o == all[n - 1]);
                assert(list@ =~= all.take(n - 1));
                back.push(QueryEvent::Observed(o));
            },
            None => {},
        }
    }
    let ghost turned = back@;
    let mut out: Vec<QueryEvent> = Vec::new();
    while back.len() > 0
        invariant
            turned.len() == all.len(),
            back@ == turned.take(back@.len() as int),
            back@.len() <= turned.len(),
            out@.len() + back@.len() == turned.len(),
            forall|k: int|
                0 <= k < turned.len() ==> (#[trigger] turned[k])@ == EventModel::Observed(
                    all[all.len() - 1 - k]@,
                ),
            forall|k: int|
                0 <= k < out@.len() ==> (#[trigger] out@[k])@ == EventModel::Observed(all[k]@),
        decreases back@.len(),
    {
        let ghost n = back@.len() as int;
        match back.pop() {
            Some(e) => {
                assert(e == turned[n - 1]);
                assert(back@ =~= turned.take(n - 1));
                out.push(e);
            },
            None => {},
        }
    }
    assert(events(out@) =~= notes(all).map_values(|n: Note| EventModel::Observed(n)));
    out
}

fn probed(told: &mut Vec<QueryEvent>, name: CacheName, hit: bool)
    ensures
        events(final(told)@) == events(old(told)@).push(EventModel::CacheProbe { name, hit }),
{
    let ghost before = told@;
    told.push(QueryEvent::CacheProbe { name, hit });
    assert(events(told@) =~= events(before).push(EventModel::CacheProbe { name, hit }));
}

impl Database {
    /// Begin a query that is not a join: answer it at once, or say by which kept
    /// decision, if any, it is to be executed.
    pub fn query_in(&mut self, op: &LogicalOp, shape: u64, key: u64, mode: QueryMode) -> (r: (
        Opening,
        Vec<QueryEvent>,
    ))
        requires
            old(self).wf(),
            joins_in(op.model()) == 0,
        ensures
            final(self).wf(),
            *final(self) == (Database {
                compiled: final(self).compiled,
                result_cache: final(self).result_cache,
                plan_cache: final(self).plan_cache,
                ..*old(self)
            }),
            events(r.1@) == opening_events(
                *old(self),
                op.model(),
                stage(*old(self), op.model(), shape, key, mode),
                shape,
                mode,
            ),
            if mode == QueryMode::Normal {
                noticed(
                    old(self).compiled@,
                    final(self).compiled@,
                    shape,
                    op.model(),
                    old(self).derived.array_of(collection_of(op.model())) is Some,
                )
            } else {
                final(self).compiled == old(self).compiled
            },
            ({
                let s = stage(*old(self), op.model(), shape, key, mode);
                let c = collection_of(op.model());
                &&& if mode == QueryMode::Normal && (s is Kept || s is Plan) {
                    asked_results(
                        old(self).result_cache,
                        final(self).result_cache,
                        key,
                        epoch_of(old(self).epochs, c),
                    )
                } else {
                    final(self).result_cache == old(self).result_cache
                }
                &&& if s is Plan {
                    asked_plans(old(self).plan_cache, final(self).plan_cache, shape)
                } else {
                    final(self).plan_cache == old(self).plan_cache
                }
                &&& match s {
                    Stage::Identity(id) => r.0 matches Opening::Identity { id: i, found } && i == id
                        && match old(self).derived.array_of(c) {
                        Some(a) => found matches Some(x) && reads_record(a, id, x),
                        None => found is None,
                    },
                    Stage::View(v) => r.0 matches Opening::View(rows) && row_models(rows@)
                        == answer_rows(v.def(), v.groups()),
                    Stage::Kept(m) => r.0 matches Opening::Kept(rows) && rows_model(rows@) == m,
                    Stage::Plan => r.0 matches Opening::Plan(d) && if mode == QueryMode::Normal
                        && kept_decision(old(self).plan_cache, shape) {
                        d matches Some(p) && p.alike(
                            &old(self).plan_cache.model().entries[shape],
                        )
                    } else {
                        d is None
                    },
                }
            }),
    {
        let ghost before = *self;
        let collection = op.collection();
        let direct = self.derived.has_direct_array(collection);
        if mode.uses_caches() {
            let compiled = self.compiled.get(shape).is_some();
            if compiled {
                if let LogicalOp::GetById { id, .. } = op {
                    let found = self.get(collection, *id);
                    let none: Vec<QueryEvent> = Vec::new();
                    assert(events(none@) =~= Seq::empty());
                    return (Opening::Identity { id: *id, found }, none);
                }
            }
            if self.compiled.observe(shape) {
                if let Some(path) = CompiledPaths::candidate(op, direct) {
                    self.compiled.install(shape, path);
                    assert(self.compiled@.counts =~= before.compiled@.counts.remove(shape));
                    assert(self.compiled@.paths =~= before.compiled@.paths.insert(shape, path));
                }
            }
        }
        let epoch: u64 = self.epoch(collection);
        let mut told: Vec<QueryEvent> = Vec::new();
        if mode.is_counted() {
            told = tell_all(note_filtered_fields(op));
        } else {
            assert(events(told@) =~= Seq::empty());
        }
        if let Some(rows) = self.derived.views.answer(op) {
            return (Opening::View(rows), told);
        }
        if mode.uses_caches() {
            let kept = match self.result_cache.get(key, epoch) {
                Some(rows) => Some(dup_rows(rows)),
                None => None,
            };
            if let Some(rows) = kept {
                probed(&mut told, CacheName::Results, true);
                return (Opening::Kept(rows), told);
            }
            probed(&mut told, CacheName::Results, false);
        }
        let kept = match self.plan_cache.get(shape) {
            Some(d) => Some(d.dup()),
            None => None,
        };
        if mode.uses_caches() {
            probed(&mut told, CacheName::Plans, kept.is_some());
            (Opening::Plan(kept), told)
        } else {
            (Opening::Plan(None), told)
        }
    }
}

// -- executing -----------------------------------------------------------------

/// Whether a decision made for a shape is kept.
pub open spec fn kept_plan(a: PlanCache, b: PlanCache, shape: u64, d: PlanDecision) -> bool {
    if a.model().capacity == 0 {
        b.model() == a.model() && b.counters() == a.counters()
    } else {
        exists|p: PlanDecision|
            #![trigger with_entry(a.model(), shape, p)]
            p.alike(&d) && b.model() == trimmed(with_entry(a.model(), shape, p)) && b.counters()
                == (CacheStats {
                evictions: raised_by(
                    a.counters().evictions,
                    excess(with_entry(a.model(), shape, p)),
                ),
                ..a.counters()
            })
    }
}

/// Whether the rows of a query are kept.
pub open spec fn kept_rows(
    a: ResultCache,
    b: ResultCache,
    key: u64,
    c: Seq<char>,
    epoch: u64,
    rows: RowsModel,
) -> bool {
    if a.model().capacity == 0 {
        b.model() == a.model() && b.counters() == a.counters()
    } else {
        exists|e: ResultEntry|
            #![trigger with_entry(a.model(), key, e)]
            {
                &&& e.source() == c
                &&& e.epoch() == epoch
                &&& rows_model(e.rows()) == rows
                &&& b.model() == trimmed(with_entry(a.model(), key, e))
                &&& b.counters() == (CacheStats {
                    evictions: raised_by(
                        a.counters().evictions,
                        excess(with_entry(a.model(), key, e)),
                    ),
                    ..a.counters()
                })
            }
    }
}

/// Whether a view is to be built for a query once it has been answered.
pub open spec fn view_wanted(v: MaterializedViews, op: OpModel) -> bool {
    v.enabled() && definition(op) is Some && view_for(v.views(), op) is None
}

/// Whether views are those there were and one of a query's collection.
pub open spec fn view_built(
    a: MaterializedViews,
    b: MaterializedViews,
    op: OpModel,
    rows: Seq<RecordModel>,
) -> bool {
    let v = b.views().last();
    let (c, d) = definition(op)->0;
    &&& b.enabled() == a.enabled()
    &&& b.views() == a.views().push(v)
    &&& v.is_of(c, d)
    &&& !v.overfull()
    &&& v.budgets() == budgets_over(d, rows)
    &&& v.follows(rows)
}

impl Database {
    /// Keep a decision that was made for a query, and say which index the query
    /// reads through, if that is to be told. A trial's decision rests on what it
    /// may see, so it is not kept.
    pub fn decided<'a>(
        &mut self,
        shape: u64,
        decision: &'a PlanDecision,
        made_now: bool,
        mode: QueryMode,
    ) -> (used: Option<&'a str>)
        requires
            old(self).wf(),
        ensures
            final(self).wf(),
            *final(self) == (Database { plan_cache: final(self).plan_cache, ..*old(self) }),
            if made_now && mode == QueryMode::Normal {
                kept_plan(old(self).plan_cache, final(self).plan_cache, shape, *decision)
            } else {
                final(self).plan_cache == old(self).plan_cache
            },
            match decision.access.index_field() {
                Some(f) if mode != QueryMode::Trial => used matches Some(u) && u@ == f,
                _ => used is None,
            },
    {
        if made_now && mode.uses_caches() {
            let d = decision.dup();
            self.plan_cache.insert(shape, d);
        }
        if !mode.is_counted() {
            return None;
        }
        match &decision.access {
            AccessDecision::IndexLookup { field } => Some(field.as_str()),
            AccessDecision::IndexRange { field } => Some(field.as_str()),
            _ => None,
        }
    }

    /// The collection whose records a view is to be built from, if one is to be
    /// built for a query.
    pub fn wants_view<'a>(&self, op: &'a LogicalOp) -> (r: Option<&'a str>)
        requires
            self.wf(),
        ensures
            if view_wanted(self.derived.views, op.model()) {
                r matches Some(c) && definition(op.model()) matches Some(p) && c@ == p.0
            } else {
                r is None
            },
    {
        if !self.derived.views.is_enabled() || self.derived.views.has_view_for(op) {
            return None;
        }
        match MaterializedViews::definition_of(op) {
            Some((c, _, _)) => Some(c),
            None => None,
        }
    }

    /// A query was executed: build the view it asked for from the records of its
    /// collection, where they were scanned for one, and keep its rows.
    pub fn finish_query(
        &mut self,
        op: &LogicalOp,
        key: u64,
        mode: QueryMode,
        rows: &Rows,
        scanned: Option<&Vec<Record>>,
    )
        requires
            old(self).wf(),
            joins_in(op.model()) == 0,
        ensures
            final(self).wf(),
            *final(self) == (Database {
                derived: Derived { views: final(self).derived.views, ..old(self).derived },
                result_cache: final(self).result_cache,
                ..*old(self)
            }),
            match scanned {
                Some(recs) if view_wanted(old(self).derived.views, op.model()) => view_built(
                    old(self).derived.views,
                    final(self).derived.views,
                    op.model(),
                    record_models(recs@),
                ),
                _ => final(self).derived.views.views() == old(self).derived.views.views()
                    && final(self).derived.views.enabled() == old(self).derived.views.enabled(),
            },
            if mode == QueryMode::Normal {
                kept_rows(
                    old(self).result_cache,
                    final(self).result_cache,
                    key,
                    collection_of(op.model()),
                    epoch_of(old(self).epochs, collection_of(op.model())),
                    rows_model(rows@),
                )
            } else {
                final(self).result_cache == old(self).result_cache
            },
    {
        if let Some(recs) = scanned {
            self.derived.views.materialize(op, recs);
        }
        if mode.uses_caches() {
            let collection = op.collection();
            let epoch: u64 = self.epoch(collection);
            self.result_cache.insert(key, collection, epoch, dup_rows(rows));
        }
    }

    /// Specialise reading one record of a collection by identity now, rather than
    /// when it has proved hot. `shape` is the shape of such a read.
    pub fn compile_identity_lookups(&mut self, collection: &str, known: bool, shape: u64) -> (r:
        Result<(), Error>)
        requires
            old(self).wf(),
        ensures
            final(self).wf(),
            *final(self) == (Database { compiled: final(self).compiled, ..*old(self) }),
            if known {
                let a = old(self).compiled@;
                let b = final(self).compiled@;
                &&& r is Ok
                &&& b.paths == a.paths.insert(shape, b.paths[shape])
                &&& Some(b.paths[shape]@) == specialisation(
                    OpModel::GetById { collection: collection@, id: 0 },
                    old(self).derived.array_of(collection@) is Some,
                )
                &&& b.counts == a.counts.remove(shape)
                &&& b.hits == a.hits
                &&& b.compilations == ticked(a.compilations)
            } else {
                r matches Err(e) && e@ == ErrorModel::NoSuchCollection(collection@)
                    && final(self).compiled == old(self).compiled
            },
    {
        if !known {
            return Err(Error::NoSuchCollection(collection.to_owned()));
        }
        let ghost before = *self;
        let probe = LogicalOp::get(collection, 0);
        let direct = self.derived.has_direct_array(collection);
        if let Some(path) = CompiledPaths::candidate(&probe, direct) {
            self.compiled.install(shape, path);
            assert(self.compiled@.paths =~= before.compiled@.paths.insert(shape, path));
        }
        Ok(())
    }
}

// -- slow queries --------------------------------------------------------------

/// A query that took long enough to be worth telling of.
#[derive(Debug, PartialEq, Eq)]
pub struct SlowQueryEvent {
    /// In nanoseconds.
    pub elapsed: u64,
    pub rows_scanned: u64,
    pub rows_returned: u64,
    pub explain: String,
}

/// Whether a query that took so long is to be told of.
pub fn is_slow(threshold: Option<u64>, elapsed: u64) -> (r: bool)
    ensures
        r == (threshold matches Some(t) && elapsed >= t),
{
    match threshold {
        Some(t) => elapsed >= t,
        None => false,
    }
}

impl SlowQueryEvent {
    /// The event in a line, and the plan below it. `elapsed` is how the time is
    /// written.
    pub fn line(&self, elapsed: &str) -> (s: String)
        ensures
            s@ == "slow query: "@ + elapsed@ + ", "@ + crate::text::dec_text(
                self.rows_scanned as nat,
            ) + " rows scanned, "@ + crate::text::dec_text(self.rows_returned as nat)
                + " returned\n"@ + self.explain@,
    {
        let mut s = String::from_str("slow query: ");
        s.append(elapsed);
        s.append(", ");
        push_dec(&mut s, self.rows_scanned);
        s.append(" rows scanned, ");
        push_dec(&mut s, self.rows_returned);
        s.append(" returned\n");
        s.append(self.explain.as_str());
        s
    }
}

// -- kept answers are answers -------------------------------------------------------

/// What a query answers at each epoch of the collection it reads.
pub type Truth = spec_fn(u64, u64) -> RowsModel;

/// Which collection a query reads.
pub type Home = spec_fn(u64) -> Seq<char>;

/// Whether every kept result is what its query answered at its epoch.
pub open spec fn honest(m: FifoModel<ResultEntry>, home: Home, truth: Truth) -> bool {
    forall|k: u64| #[trigger]
        m.entries.contains_key(k) ==> m.entries[k].source() == home(k) && rows_model(
            m.entries[k].rows(),
        ) == truth(k, m.entries[k].epoch())
}

/// Whether nothing is kept that was not.
pub open spec fn no_more(a: FifoModel<ResultEntry>, b: FifoModel<ResultEntry>) -> bool {
    forall|k: u64| #[trigger]
        b.entries.contains_key(k) ==> a.entries.contains_key(k) && b.entries[k] == a.entries[k]
}

proof fn lemma_no_more_is_honest(
    a: FifoModel<ResultEntry>,
    b: FifoModel<ResultEntry>,
    home: Home,
    truth: Truth,
)
    requires
        honest(a, home, truth),
        no_more(a, b),
    ensures
        honest(b, home, truth),
{
    assert forall|k: u64| #[trigger] b.entries.contains_key(k) implies b.entries[k].source() == home(
        k,
    ) && rows_model(b.entries[k].rows()) == truth(k, b.entries[k].epoch()) by {
        assert(a.entries.contains_key(k));
    }
}

/// A kept answer that is served is what the query answers now.
pub proof fn a_kept_answer_is_the_answer_now(
    db: Database,
    op: OpModel,
    shape: u64,
    key: u64,
    home: Home,
    truth: Truth,
)
    requires
        honest(db.result_cache.model(), home, truth),
        home(key) == collection_of(op),
    ensures
        stage(db, op, shape, key, QueryMode::Normal) matches Stage::Kept(rows) ==> rows == truth(
            key,
            epoch_of(db.epochs, collection_of(op)),
        ),
{
    if let Stage::Kept(rows) = stage(db, op, shape, key, QueryMode::Normal) {
        assert(db.result_cache.model().entries.contains_key(key));
    }
}

/// After a write nothing kept of its collection is left, and every other kept
/// answer stays true.
pub proof fn a_write_leaves_no_stale_answer(
    a: Database,
    b: Database,
    c: Seq<char>,
    home: Home,
    truth: Truth,
)
    requires
        changed_in(a, b, c),
        honest(a.result_cache.model(), home, truth),
    ensures
        honest(b.result_cache.model(), home, truth),
        forall|k: u64| #[trigger]
            b.result_cache.model().entries.contains_key(k)
                ==> b.result_cache.model().entries[k].source() != c,
{
    lemma_no_more_is_honest(a.result_cache.model(), b.result_cache.model(), home, truth);
}

proof fn lemma_trimmed(m: FifoModel<ResultEntry>)
    ensures
        no_more(m, trimmed(m)),
{
}

/// Keeping what a query answered keeps every kept answer true.
pub proof fn keeping_an_answer_is_honest(
    a: ResultCache,
    b: ResultCache,
    key: u64,
    c: Seq<char>,
    epoch: u64,
    home: Home,
    truth: Truth,
)
    requires
        a.wf(),
        honest(a.model(), home, truth),
        home(key) == c,
        kept_rows(a, b, key, c, epoch, truth(key, epoch)),
    ensures
        honest(b.model(), home, truth),
{
    if a.model().capacity > 0 {
        let e = choose|e: ResultEntry|
            #![trigger with_entry(a.model(), key, e)]
            {
                &&& e.source() == c
                &&& e.epoch() == epoch
                &&& rows_model(e.rows()) == truth(key, epoch)
                &&& b.model() == trimmed(with_entry(a.model(), key, e))
                &&& b.counters() == (CacheStats {
                    evictions: raised_by(
                        a.counters().evictions,
                        excess(with_entry(a.model(), key, e)),
                    ),
                    ..a.counters()
                })
            };
        let m = with_entry(a.model(), key, e);
        assert forall|k: u64| #[trigger] m.entries.contains_key(k) implies m.entries[k].source()
            == home(k) && rows_model(m.entries[k].rows()) == truth(k, m.entries[k].epoch()) by {
            if k != key {
                assert(a.model().entries.contains_key(k));
            }
        }
        lemma_trimmed(m);
        lemma_no_more_is_honest(m, b.model(), home, truth);
    }
}

/// Asking for a kept answer keeps every kept answer true.
pub proof fn asking_is_honest(
    a: ResultCache,
    b: ResultCache,
    key: u64,
    epoch: u64,
    home: Home,
    truth: Truth,
)
    requires
        honest(a.model(), home, truth),
        asked_results(a, b, key, epoch),
    ensures
        honest(b.model(), home, truth),
{
    lemma_no_more_is_honest(a.model(), b.model(), home, truth);
}

/// Nothing that is kept answers a query an experiment measures.
pub proof fn a_measured_query_is_not_answered_from_what_is_kept(
    db: Database,
    op: OpModel,
    shape: u64,
    key: u64,
    mode: QueryMode,
)
    requires
        mode != QueryMode::Normal,
    ensures
        !(stage(db, op, shape, key, mode) is Kept),
        !(stage(db, op, shape, key, mode) is Identity),
{
}

// -- what answers -----------------------------------------------------------------

/// What answers a query is the first of these that can. A read by identity goes over a
/// specialised path, where one was made and the query is not measured. An exact view of
/// what is asked answers it, while views are switched on. Rows that were kept are served
/// where their collection has not changed since, and the query is not measured. And
/// anything else is executed.
pub proof fn the_first_that_can_answers(
    db: Database,
    op: OpModel,
    shape: u64,
    key: u64,
    mode: QueryMode,
)
    ensures
        ({
            let views = db.derived.views;
            let m = db.result_cache.model();
            let quick = mode is Normal && op is GetById && db.compiled@.paths.contains_key(shape);
            let seen = views.enabled() && (view_for(views.views(), op) matches Some(v) && v.exact());
            let kept = mode is Normal && m.capacity > 0 && m.entries.contains_key(key)
                && m.entries[key].epoch() == epoch_of(db.epochs, collection_of(op));
            match stage(db, op, shape, key, mode) {
                Stage::Identity(id) => quick && (op matches OpModel::GetById { id: i, .. } && i == id),
                Stage::View(v) => !quick && seen && Some(v) == view_for(views.views(), op),
                Stage::Kept(rows) => !quick && !seen && kept && rows == rows_model(
                    m.entries[key].rows(),
                ),
                Stage::Plan => !quick && !seen && !kept,
            }
        }),
{
}

/// A read by identity is specialised once its shape has been seen two hundred and fifty-six
/// times, and never before. A path that was made counts its uses.
pub proof fn a_hot_shape_is_specialised(
    a: CompiledModel,
    b: CompiledModel,
    shape: u64,
    op: OpModel,
    direct: bool,
)
    requires
        noticed(a, b, shape, op, direct),
    ensures
        b.paths.contains_key(shape) <==> a.paths.contains_key(shape) || (op is GetById && (
        if a.counts.contains_key(shape) {
            a.counts[shape] as int
        } else {
            0
        }) >= 255),
        forall|other: u64|
            other != shape ==> (#[trigger] b.paths.contains_key(other) <==> a.paths.contains_key(other)),
        a.paths.contains_key(shape) && a.hits < u64::MAX ==> b.hits == a.hits + 1,
        !a.paths.contains_key(shape) ==> b.hits == a.hits,
        !b.paths.contains_key(shape) && seen_count(a, shape) < u64::MAX ==> b.counts.contains_key(shape)
            && b.counts[shape] == seen_count(a, shape) + 1,
{
}

/// A query tells what its plan teaches, each lesson once, unless it is read by identity or
/// tried both ways, when it tells nothing. An ordinary one tells besides whether its result
/// was kept, and where it was not, whether its plan was. A measured one does not ask.
pub proof fn a_query_tells_what_it_teaches(
    db: Database,
    op: OpModel,
    s: Stage,
    shape: u64,
    mode: QueryMode,
)
    requires
        s is Kept || s is Identity ==> mode is Normal,
    ensures
        ({
            let told = opening_events(db, op, s, shape, mode);
            let n = lessons(op).len() as int;
            let m = db.plan_cache.model();
            if mode is Trial || s is Identity {
                told.len() == 0
            } else {
                &&& forall|i: int| 0 <= i < n ==> #[trigger] told[i] == EventModel::Observed(lessons(op)[i])
                &&& told.len() == n + if !(mode is Normal) || s is View {
                    0int
                } else if s is Kept {
                    1
                } else {
                    2
                }
                &&& mode is Normal && !(s is View) ==> told[n] == (EventModel::CacheProbe {
                    name: CacheName::Results,
                    hit: s is Kept,
                })
                &&& mode is Normal && s is Plan ==> told[n + 1] == (EventModel::CacheProbe {
                    name: CacheName::Plans,
                    hit: m.capacity > 0 && m.entries.contains_key(shape),
                })
            }
        }),
{
}

/// A view is built for a query exactly where views are switched on, the query is one a view
/// can answer, and there is none of its collection, grouping and aggregates yet.
pub proof fn a_view_is_built_where_there_is_none(v: MaterializedViews, op: OpModel)
    ensures
        view_wanted(v, op) <==> v.enabled() && match definition(op) {
            Some((c, d)) => forall|i: int|
                0 <= i < v.views().len() ==> (#[trigger] v.views()[i]).source() != c
                    || v.views()[i].def() != d,
            None => false,
        },
{
    a_query_finds_its_view(v.views(), op);
    if let Some(w) = view_for(v.views(), op) {
        let i = choose|i: int| 0 <= i < v.views().len() && v.views()[i] == w;
        assert(v.views()[i].source() == w.source());
    }
}

// -- what is kept --------------------------------------------------------------------

/// A kept result that is asked for is a hit where its collection has not changed since, and
/// everything stays; else it is a miss, and one that has gone stale goes, alone. A cache that
/// is switched off counts nothing.
pub proof fn asking_for_a_result_counts_once(
    a: ResultCache,
    b: ResultCache,
    key: u64,
    epoch: u64,
    other: u64,
)
    requires
        asked_results(a, b, key, epoch),
        other != key,
    ensures
        ({
            let (m, n) = (a.model(), b.model());
            let (s, t) = (a.counters(), b.counters());
            let hit = m.capacity > 0 && m.entries.contains_key(key) && m.entries[key].epoch() == epoch;
            let miss = m.capacity > 0 && !hit;
            &&& s.hits < u64::MAX ==> t.hits == s.hits + (if hit {
                1int
            } else {
                0
            })
            &&& s.misses < u64::MAX ==> t.misses == s.misses + (if miss {
                1int
            } else {
                0
            })
            &&& t.evictions == s.evictions
            &&& miss ==> !n.entries.contains_key(key)
            &&& !miss ==> n == m
            &&& n.entries.contains_key(other) == m.entries.contains_key(other)
            &&& m.entries.contains_key(other) ==> n.entries[other] == m.entries[other]
            &&& n.capacity == m.capacity
        }),
{
    dropping_an_entry_drops_no_other(a.model(), key);
}

/// Rows that are kept are found again under their key, for the collection and at the epoch
/// they are of, so long as the cache holds anything.
pub proof fn rows_that_are_kept_are_found_again(
    a: ResultCache,
    b: ResultCache,
    key: u64,
    c: Seq<char>,
    epoch: u64,
    rows: RowsModel,
)
    requires
        a.wf(),
        kept_rows(a, b, key, c, epoch, rows),
        a.model().capacity > 0,
    ensures
        b.model().entries.contains_key(key),
        b.model().entries[key].source() == c,
        b.model().entries[key].epoch() == epoch,
        rows_model(b.model().entries[key].rows()) == rows,
        b.counters().hits == a.counters().hits,
        b.counters().misses == a.counters().misses,
{
    let e = choose|e: ResultEntry|
        #![trigger with_entry(a.model(), key, e)]
        e.source() == c && e.epoch() == epoch && rows_model(e.rows()) == rows && b.model() == trimmed(
            with_entry(a.model(), key, e),
        ) && b.counters() == (CacheStats {
            evictions: raised_by(a.counters().evictions, excess(with_entry(a.model(), key, e))),
            ..a.counters()
        });
    a_cache_keeps_what_it_was_given(a.model(), key, e);
}

/// A decision that is kept for a shape is found again, and is the same decision.
pub proof fn a_decision_that_is_kept_is_found_again(
    a: PlanCache,
    b: PlanCache,
    shape: u64,
    d: PlanDecision,
)
    requires
        a.wf(),
        kept_plan(a, b, shape, d),
        a.model().capacity > 0,
    ensures
        b.model().entries.contains_key(shape),
        b.model().entries[shape].alike(&d),
        b.counters().hits == a.counters().hits,
        b.counters().misses == a.counters().misses,
{
    let p = choose|p: PlanDecision|
        #![trigger with_entry(a.model(), shape, p)]
        p.alike(&d) && b.model() == trimmed(with_entry(a.model(), shape, p)) && b.counters() == (
        CacheStats {
            evictions: raised_by(a.counters().evictions, excess(with_entry(a.model(), shape, p))),
            ..a.counters()
        });
    a_cache_keeps_what_it_was_given(a.model(), shape, p);
}

/// A decision asked for is a hit where one is kept, and a miss where none is; nothing kept
/// changes for it.
pub proof fn asking_for_a_decision_counts_once(a: PlanCache, b: PlanCache, shape: u64)
    requires
        asked_plans(a, b, shape),
    ensures
        ({
            let (s, t) = (a.counters(), b.counters());
            let on = a.model().capacity > 0;
            let there = a.model().entries.contains_key(shape);
            &&& b.model() == a.model()
            &&& s.hits < u64::MAX ==> t.hits == s.hits + (if on && there {
                1int
            } else {
                0
            })
            &&& s.misses < u64::MAX ==> t.misses == s.misses + (if on && !there {
                1int
            } else {
                0
            })
            &&& t.evictions == s.evictions && t.invalidations == s.invalidations
        }),
{
}

/// A view that was built for a query is the one the query finds, and no view that was there
/// is lost.
pub proof fn a_view_that_was_built_is_found(
    a: MaterializedViews,
    b: MaterializedViews,
    op: OpModel,
    rows: Seq<RecordModel>,
    w: MaterializedView,
)
    requires
        view_wanted(a, op),
        view_built(a, b, op, rows),
    ensures
        view_for(b.views(), op) == Some(b.views().last()),
        a.views().contains(w) ==> b.views().contains(w),
        b.enabled(),
{
    let (c, d) = definition(op)->Some_0;
    let v = b.views().last();
    a_view_is_built_where_there_is_none(a, op);
    a_query_finds_its_view(b.views(), op);
    assert(b.views()[b.views().len() - 1] == v);
    assert(v.source() == c && v.def() == d);
    let x = view_for(b.views(), op);
    assert(x is Some);
    let i = choose|i: int| 0 <= i < b.views().len() && b.views()[i] == x->Some_0;
    if i < a.views().len() {
        assert(a.views()[i] == b.views()[i]);
    }
    if a.views().contains(w) {
        let k = choose|k: int| 0 <= k < a.views().len() && a.views()[k] == w;
        assert(b.views()[k] == w);
    }
}

} // verus!
