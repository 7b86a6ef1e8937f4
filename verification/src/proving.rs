//! A database's experiments, measured by what its derived structures take.

use vstd::prelude::*;
use crate::action::{Decision, Phase};
use crate::caches::results_cost;
use crate::database::Database;
use crate::error::{Error, ErrorModel};
use crate::experiment::{folded, proposed, LiveExperiment, LiveModel};
use crate::number::capped;
use crate::optimizations::OptContext;
use crate::column::ColumnStore;
use crate::derived::Derived;
use crate::matview::views_cost;
use crate::structures::{all_indexes_cost, arrays_cost, copies_cost};
use crate::text::texts;
use crate::trials::{
    aborted, count_in, evidence_from, leaving, lives, moved_to, optional_retiring, place_of, refusal,
    told, told_of, Retiring, Step, StepModel, TrialsModel,
};

verus! {

/// What indexes, cached results and arrays take.
pub open spec fn row_footprint(db: Database) -> usize {
    capped(
        capped(
            all_indexes_cost(
                db.derived.indexes.entries(),
                db.derived.indexes.entries().len() as int,
            ) + capped(
                results_cost(db.result_cache.model().entries, db.result_cache.model().order) as int,
            ),
        ) + arrays_cost(
            db.derived.direct.entries(),
            db.derived.direct.entries().len() as int,
        ),
    )
}

/// What columnar copies take.
pub open spec fn column_footprint(db: Database) -> usize {
    copies_cost(db.derived.columns.entries(), db.derived.columns.entries().len() as int)
}

/// What everything derived takes, columnar copies and views with the rest.
pub open spec fn footprint(db: Database) -> usize {
    capped(
        capped(row_footprint(db) + column_footprint(db)) + views_cost(db.derived.views.views()),
    )
}

proof fn lemma_a_copy_costs(e: Seq<(Seq<char>, ColumnStore)>, n: int, i: int)
    requires
        0 <= i < n <= e.len(),
        e[i].1@.ids.len() > 0,
    ensures
        copies_cost(e, n) > 0,
    decreases n,
{
    if i < n - 1 {
        lemma_a_copy_costs(e, n - 1, i);
    }
}

/// A columnar copy with a row in it is counted: a database that has one, and had none,
/// takes more than it did, where what it took could be counted.
pub proof fn a_columnar_copy_is_counted(a: Database, b: Database, i: int)
    requires
        a.derived.columns.entries().len() == 0,
        b == (Database {
            derived: Derived { columns: b.derived.columns, ..a.derived },
            plan_cache: b.plan_cache,
            compiled: b.compiled,
            ..a
        }),
        0 <= i < b.derived.columns.entries().len(),
        b.derived.columns.entries()[i].1@.ids.len() > 0,
    ensures
        footprint(a) < usize::MAX ==> footprint(b) > footprint(a),
{
    lemma_a_copy_costs(
        b.derived.columns.entries(),
        b.derived.columns.entries().len() as int,
        i,
    );
}

impl Database {
    /// Begin proving a change against live traffic.
    pub fn begin_experiment(
        &mut self,
        decision: Decision,
        ctx: &OptContext,
        kind: Option<i64>,
        names: &Vec<String>,
    ) -> (r: Result<u64, Error>)
        requires
            old(self).wf(),
            old(self).trials@.next_id < u64::MAX,
        ensures
            final(self).wf(),
            *final(self) == (Database { trials: final(self).trials, ..*old(self) }),
            match refusal(old(self).trials@, decision@, ctx@, kind, texts(names@)) {
                Some(why) => r matches Err(e) && e@ == ErrorModel::InvalidOptimization(why)
                    && final(self).trials@ == old(self).trials@,
                None => r == Ok::<u64, Error>(old(self).trials@.next_id) && final(self).trials@ == (
                TrialsModel {
                    running: old(self).trials@.running.push(
                        proposed(
                            old(self).trials@.next_id,
                            decision@,
                            evidence_from(decision@.scope, texts(names@)),
                        ),
                    ),
                    next_id: (old(self).trials@.next_id + 1) as u64,
                    ..old(self).trials@
                }),
            },
    {
        self.trials.begin_experiment(decision, ctx, kind, names)
    }

    /// Fold the evidence of an experiment, with what everything derived takes now.
    pub fn fold_experiment(
        &mut self,
        id: u64,
        baseline_p50: u64,
        baseline_p99: u64,
        candidate_p50: u64,
        candidate_p99: u64,
    )
        requires
            old(self).wf(),
        ensures
            final(self).wf(),
            *final(self) == (Database { trials: final(self).trials, ..*old(self) }),
            final(self).trials@ == match place_of(old(self).trials@.running, id) {
                Some(i) => TrialsModel {
                    running: old(self).trials@.running.update(
                        i,
                        folded(
                            old(self).trials@.running[i],
                            footprint(*old(self)) as u64,
                            (baseline_p50, baseline_p99),
                            (candidate_p50, candidate_p99),
                        ),
                    ),
                    ..old(self).trials@
                },
                None => old(self).trials@,
            },
    {
        let ram: u64 = self.derived_memory_bytes() as u64;
        self.trials.fold(id, ram, baseline_p50, baseline_p99, candidate_p50, candidate_p99);
    }

    /// Move an experiment to the phase its evidence earned it.
    pub fn advance_experiment(&mut self, id: u64, after: Phase, outcome: &str) -> (step: Step)
        requires
            old(self).wf(),
        ensures
            final(self).wf(),
            *final(self) == (Database { trials: final(self).trials, ..*old(self) }),
            match place_of(old(self).trials@.running, id) {
                None => final(self).trials@ == old(self).trials@ && step@ == StepModel::Stay,
                Some(i) => if old(self).trials@.running[i].phase == after {
                    final(self).trials@ == old(self).trials@ && step@ == StepModel::Stay
                } else {
                    (final(self).trials@, step@) == moved_to(
                        old(self).trials@,
                        i,
                        after,
                        footprint(*old(self)) as u64,
                        outcome@,
                    )
                },
            },
    {
        let ram: u64 = self.derived_memory_bytes() as u64;
        self.trials.advance_experiment(id, after, ram, outcome)
    }

    /// Stop every running experiment, oldest first.
    pub fn abort_experiment(&mut self, why: &str) -> (out: Vec<Retiring>)
        requires
            old(self).wf(),
        ensures
            final(self).wf(),
            *final(self) == (Database { trials: final(self).trials, ..*old(self) }),
            final(self).trials@ == (TrialsModel { running: Seq::empty(), ..old(self).trials@ }),
            out@.len() == old(self).trials@.running.len(),
            forall|i: int|
                0 <= i < out@.len() ==> (#[trigger] out@[i])@ == leaving(
                    old(self).trials@.hidden,
                    (LiveModel { phase: Phase::Reverted, ..old(self).trials@.running[i] }),
                    why@,
                    false,
                ),
    {
        self.trials.abort_experiment(why)
    }

    /// Stop one experiment.
    pub fn abort_experiment_by_id(&mut self, id: u64, why: &str) -> (r: Option<Retiring>)
        requires
            old(self).wf(),
        ensures
            final(self).wf(),
            *final(self) == (Database { trials: final(self).trials, ..*old(self) }),
            (final(self).trials@, optional_retiring(r)) == aborted(old(self).trials@, id, why@),
    {
        self.trials.abort_experiment_by_id(id, why)
    }

    /// The oldest running experiment, if any.
    pub fn experiment(&self) -> (r: Option<&LiveExperiment>)
        ensures
            match r {
                Some(e) => self.trials@.running.len() > 0 && e@ == self.trials@.running[0],
                None => self.trials@.running.len() == 0,
            },
    {
        self.trials.experiment()
    }

    /// Every experiment running right now, oldest first.
    pub fn experiments(&self) -> (r: &Vec<LiveExperiment>)
        ensures
            lives(r@) == self.trials@.running,
    {
        self.trials.experiments()
    }

    /// Experiments that reached a verdict, oldest first.
    pub fn finished_experiments(&self) -> (r: &Vec<LiveExperiment>)
        ensures
            lives(r@) == self.trials@.finished,
    {
        self.trials.finished_experiments()
    }

    /// Experiments that have ever been started.
    pub fn experiments_started(&self) -> (n: u64)
        requires
            self.wf(),
        ensures
            n == self.trials@.next_id - 1,
    {
        self.trials.experiments_started()
    }

    /// Experiments that ended by being promoted.
    pub fn promoted_count(&self) -> (n: usize)
        ensures
            n == count_in(self.trials@.finished, Phase::Promoted),
    {
        self.trials.promoted_count()
    }

    /// Experiments that ended by being reverted.
    pub fn reverted_count(&self) -> (n: usize)
        ensures
            n == count_in(self.trials@.finished, Phase::Reverted),
    {
        self.trials.reverted_count()
    }

    /// What there is to say of experiments.
    pub fn explain_experiment(&self, heads: &Vec<String>) -> (s: String)
        requires
            heads@.len() == told_of(self.trials@),
        ensures
            told(self.trials@, texts(heads@), s@),
    {
        self.trials.explain_experiment(heads)
    }
}

/// Everything derived is counted, and each thing once: indexes, cached results, arrays,
/// columnar copies and views, as far as that can be counted.
pub proof fn everything_derived_is_counted(db: Database)
    ensures
        footprint(db) == capped(
            all_indexes_cost(
                db.derived.indexes.entries(),
                db.derived.indexes.entries().len() as int,
            ) + capped(
                results_cost(db.result_cache.model().entries, db.result_cache.model().order) as int,
            ) + arrays_cost(
                db.derived.direct.entries(),
                db.derived.direct.entries().len() as int,
            ) + copies_cost(
                db.derived.columns.entries(),
                db.derived.columns.entries().len() as int,
            ) + views_cost(db.derived.views.views()),
        ),
{
}

} // verus!
