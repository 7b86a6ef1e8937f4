//! The experiments a database runs.
//!
//! Several may run at once, as long as no query could be evidence for two of
//! them. What an experiment built is hidden from every query but its own until it
//! is promoted.

use vstd::prelude::*;
use vstd::string::*;
use crate::action::{
    action_text, direction_text, measuring, shadowable, Action, ActionModel, Decision, DecisionAction,
    DecisionModel, Phase,
};
use crate::caches::{rows_model, ticked, Rows};
use crate::error::{Error, ErrorModel};
use crate::experiment::{
    folded, index_hidden, live_text, mask_empty_for, mask_of, mask_with, mask_without, no_mask, other_indexes, other_listed,
    overlapping, proposed, routes, scopes_overlap, Candidates, HiddenIndex, LiveExperiment,
    LiveModel, Mask,
};
use crate::names::{lemma_pieces_nonempty, pieces, split_on};
use crate::optimizations::{enabling, registered, Builtin, ContextModel, OptContext};
use crate::shadow::{answered, disagreement, recorded, says, trial, trial_of};
use crate::text::{contains_str, dec_text, join, joined, push_dec, str_eq, texts};

verus! {

/// The experiments of a database, running and finished, and what they hide.
pub struct Trials {
    /// Oldest first.
    pub running: Vec<LiveExperiment>,
    /// In the order they reached a verdict.
    pub finished: Vec<LiveExperiment>,
    /// What running experiments built, each entry tagged with whose it is.
    pub hidden: Candidates,
    /// Whether the query being answered is served by a candidate.
    pub candidate_visible: bool,
    /// Whose candidate that is.
    pub under_test: Option<u64>,
    /// The experiment whose candidate is being built.
    pub recording: Option<u64>,
    pub next_id: u64,
}

/// What [`Trials`] hold.
#[verifier::ext_equal]
pub struct TrialsModel {
    pub running: Seq<LiveModel>,
    pub finished: Seq<LiveModel>,
    pub hidden: Mask,
    pub candidate_visible: bool,
    pub under_test: Option<u64>,
    pub recording: Option<u64>,
    pub next_id: u64,
}

pub open spec fn lives(s: Seq<LiveExperiment>) -> Seq<LiveModel> {
    s.map_values(|e: LiveExperiment| e@)
}

impl View for Trials {
    type V = TrialsModel;

    open spec fn view(&self) -> TrialsModel {
        TrialsModel {
            running: lives(self.running@),
            finished: lives(self.finished@),
            hidden: self.hidden@,
            candidate_visible: self.candidate_visible,
            under_test: self.under_test,
            recording: self.recording,
            next_id: self.next_id,
        }
    }
}

/// Whether experiments are in the order they were begun.
pub open spec fn in_order(s: Seq<LiveModel>) -> bool {
    forall|i: int, j: int|
        0 <= i < j < s.len() ==> (#[trigger] s[i]).id < (#[trigger] s[j]).id
}

/// Whether no query could be evidence for two of the experiments.
pub open spec fn apart(s: Seq<LiveModel>) -> bool {
    forall|i: int, j: int|
        0 <= i < j < s.len() ==> !overlapping(
            (#[trigger] s[i]).collection,
            (#[trigger] s[j]).collection,
        )
}

/// Whether every entry of a mask belongs to an experiment before `n`.
pub open spec fn masked_below(m: Mask, n: u64) -> bool {
    &&& forall|i: int| 0 <= i < m.indexes.len() ==> (#[trigger] m.indexes[i]).0 < n
    &&& forall|i: int| 0 <= i < m.column_store.len() ==> (#[trigger] m.column_store[i]).0 < n
    &&& forall|i: int| 0 <= i < m.direct.len() ==> (#[trigger] m.direct[i]).0 < n
}

impl TrialsModel {
    /// Ids are handed out in order, running experiments keep apart, and nothing is
    /// hidden for an experiment that was never begun.
    pub open spec fn ok(self) -> bool {
        &&& self.next_id >= 1
        &&& in_order(self.running)
        &&& apart(self.running)
        &&& forall|i: int|
            0 <= i < self.running.len() ==> 1 <= (#[trigger] self.running[i]).id < self.next_id
        &&& masked_below(self.hidden, self.next_id)
        &&& self.recording matches Some(id) ==> id < self.next_id
    }
}

/// Where the experiment of an id stands.
pub open spec fn place_of(s: Seq<LiveModel>, id: u64) -> Option<int>
    decreases s.len(),
{
    if s.len() == 0 {
        None
    } else if s.last().id == id {
        Some(s.len() - 1)
    } else {
        place_of(s.drop_last(), id)
    }
}

proof fn lemma_place_of(s: Seq<LiveModel>, id: u64)
    ensures
        match place_of(s, id) {
            Some(i) => 0 <= i < s.len() && s[i].id == id,
            None => forall|i: int| 0 <= i < s.len() ==> (#[trigger] s[i]).id != id,
        },
    decreases s.len(),
{
    if s.len() > 0 && s.last().id != id {
        lemma_place_of(s.drop_last(), id);
        assert forall|i: int| 0 <= i < s.len() && place_of(s, id) is None implies (
        #[trigger] s[i]).id != id by {
            if i < s.len() - 1 {
                assert(s.drop_last()[i] == s[i]);
            }
        }
    }
}

// -- beginning ---------------------------------------------------------------

/// The first change of a plan that leaves nothing to compare against.
pub open spec fn first_unshadowable(s: Seq<ActionModel>) -> Option<ActionModel>
    decreases s.len(),
{
    if s.len() == 0 {
        None
    } else if !shadowable(s[0]) {
        Some(s[0])
    } else {
        first_unshadowable(s.skip(1))
    }
}

/// The first experiment that could see the traffic of a scope.
pub open spec fn first_clash(s: Seq<LiveModel>, collection: Seq<char>) -> Option<LiveModel>
    decreases s.len(),
{
    if s.len() == 0 {
        None
    } else if overlapping(s[0].collection, collection) {
        Some(s[0])
    } else {
        first_clash(s.skip(1), collection)
    }
}

/// Which collection's queries are evidence for a change to a scope. A scope that
/// names no collection takes every query.
pub open spec fn evidence_from(scope: Seq<char>, names: Seq<Seq<char>>) -> Seq<char> {
    let first = pieces(scope, '.')[0];
    if names.contains(first) {
        first
    } else {
        Seq::empty()
    }
}

pub open spec fn clash_text(clash: LiveModel, collection: Seq<char>) -> Seq<char> {
    "experiment #"@ + dec_text(clash.id as nat) + " already covers the same traffic ("@ + (
    if clash.collection.len() == 0 {
        "every collection"@
    } else {
        clash.collection
    }) + "), so running one "@ + (if collection.len() == 0 {
        "globally"@
    } else {
        "on "@ + collection
    }) + " too would make each measure the other"@
}

/// Why a decision cannot be experimented on, if it cannot.
pub open spec fn refusal(
    m: TrialsModel,
    d: DecisionModel,
    c: ContextModel,
    kind: Option<i64>,
    names: Seq<Seq<char>>,
) -> Option<Seq<char>> {
    if d.action != DecisionAction::Enable {
        Some("only an enable can be experimented on, not a "@ + direction_text(d.action))
    } else {
        match registered(d.optimization) {
            None => Some(d.optimization + " is not registered"@),
            Some(b) => {
                let changes = enabling(b, c, d.scope, kind).apply;
                if changes.len() == 0 {
                    Some(d.optimization + " has nothing to do for "@ + d.scope)
                } else {
                    match first_unshadowable(changes) {
                        Some(a) => Some(
                            d.optimization + " cannot be experimented on: "@ + action_text(a)
                                + " leaves no old path to compare against"@,
                        ),
                        None => {
                            let collection = evidence_from(d.scope, names);
                            match first_clash(m.running, collection) {
                                Some(e) => Some(clash_text(e, collection)),
                                None => None,
                            }
                        },
                    }
                }
            },
        }
    }
}

proof fn lemma_no_clash(s: Seq<LiveModel>, collection: Seq<char>)
    requires
        first_clash(s, collection) is None,
    ensures
        forall|i: int| 0 <= i < s.len() ==> !overlapping((#[trigger] s[i]).collection, collection),
    decreases s.len(),
{
    if s.len() > 0 {
        lemma_no_clash(s.skip(1), collection);
        assert forall|i: int| 0 <= i < s.len() implies !overlapping(
            (#[trigger] s[i]).collection,
            collection,
        ) by {
            if i > 0 {
                assert(s.skip(1)[i - 1] == s[i]);
            }
        }
    }
}

/// Which of the changes, if any, leaves nothing to compare against.
fn find_unshadowable(changes: &Vec<Action>) -> (r: Option<&Action>)
    ensures
        match r {
            Some(a) => first_unshadowable(crate::action::action_models(changes@)) == Some(a@),
            None => first_unshadowable(crate::action::action_models(changes@)) is None,
        },
{
    let ghost s = crate::action::action_models(changes@);
    assert(s.skip(0) =~= s);
    let mut i: usize = 0;
    while i < changes.len()
        invariant
            i <= changes@.len(),
            s == crate::action::action_models(changes@),
            first_unshadowable(s) == first_unshadowable(s.skip(i as int)),
        decreases changes@.len() - i,
    {
        assert(s.skip(i as int)[0] == changes@[i as int]@);
        assert(s.skip(i as int).skip(1) =~= s.skip(i + 1));
        if !changes[i].is_shadowable() {
            return Some(&changes[i]);
        }
        i += 1;
    }
    None
}

fn evidence_for(scope: &str, names: &Vec<String>) -> (s: String)
    ensures
        s@ == evidence_from(scope@, texts(names@)),
{
    let parts = split_on(scope, '.');
    proof {
        lemma_pieces_nonempty(scope@, '.');
        assert(texts(parts@)[0] == parts@[0]@);
    }
    let first = parts[0].as_str();
    if contains_str(names, first) {
        first.to_owned()
    } else {
        let none = String::new();
        assert(none@ =~= Seq::empty());
        none
    }
}

fn clash_words(clash: &LiveExperiment, collection: &str) -> (s: String)
    ensures
        s@ == clash_text(clash@, collection@),
{
    let mut s = String::from_str("experiment #");
    push_dec(&mut s, clash.id);
    s.append(" already covers the same traffic (");
    if clash.collection.as_str().is_empty() {
        s.append("every collection");
    } else {
        s.append(clash.collection.as_str());
    }
    s.append("), so running one ");
    if collection.is_empty() {
        s.append("globally");
    } else {
        s.append("on ");
        s.append(collection);
    }
    s.append(" too would make each measure the other");
    assert(s@ =~= clash_text(clash@, collection@));
    s
}

/// Two texts put together.
fn phrase(a: &str, b: &str) -> (s: String)
    ensures
        s@ == a@ + b@,
{
    let mut s = a.to_owned();
    s.append(b);
    s
}

/// Experiments before there was any.
pub open spec fn no_trials() -> TrialsModel {
    TrialsModel {
        running: Seq::empty(),
        finished: Seq::empty(),
        hidden: no_mask(),
        candidate_visible: false,
        under_test: None,
        recording: None,
        next_id: 1,
    }
}

impl Trials {
    pub fn new() -> (t: Trials)
        ensures
            t@ == no_trials(),
            t@.ok(),
    {
        let t = Trials {
            running: Vec::new(),
            finished: Vec::new(),
            hidden: Candidates::default(),
            candidate_visible: false,
            under_test: None,
            recording: None,
            next_id: 1,
        };
        assert(t@.running =~= Seq::empty());
        assert(t@.finished =~= Seq::empty());
        t
    }

    /// Find a running experiment by id.
    pub fn experiment_index(&self, id: u64) -> (r: Option<usize>)
        requires
            self@.ok(),
        ensures
            match place_of(self@.running, id) {
                Some(i) => r matches Some(k) && k == i && k < self.running@.len(),
                None => r is None,
            },
    {
        let ghost s = self@.running;
        proof {
            lemma_place_of(s, id);
        }
        let mut i: usize = 0;
        while i < self.running.len()
            invariant
                i <= self.running@.len(),
                s == self@.running,
                in_order(s),
                forall|k: int| 0 <= k < i ==> (#[trigger] s[k]).id != id,
                match place_of(s, id) {
                    Some(k) => 0 <= k < s.len() && s[k].id == id,
                    None => forall|k: int| 0 <= k < s.len() ==> (#[trigger] s[k]).id != id,
                },
            decreases self.running@.len() - i,
        {
            assert(s[i as int] == self.running@[i as int]@);
            if self.running[i].id == id {
                return Some(i);
            }
            i += 1;
        }
        None
    }

    fn find_clash(&self, collection: &str) -> (r: Option<&LiveExperiment>)
        ensures
            match r {
                Some(e) => first_clash(self@.running, collection@) == Some(e@),
                None => first_clash(self@.running, collection@) is None,
            },
    {
        let ghost s = self@.running;
        assert(s.skip(0) =~= s);
        let mut i: usize = 0;
        while i < self.running.len()
            invariant
                i <= self.running@.len(),
                s == self@.running,
                first_clash(s, collection@) == first_clash(s.skip(i as int), collection@),
            decreases self.running@.len() - i,
        {
            assert(s.skip(i as int)[0] == self.running@[i as int]@);
            assert(s.skip(i as int).skip(1) =~= s.skip(i + 1));
            if scopes_overlap(self.running[i].collection.as_str(), collection) {
                return Some(&self.running[i]);
            }
            i += 1;
        }
        None
    }

    /// Begin proving a change against live traffic. Nothing is built yet. `kind` is
    /// the kind of index the decision asks for, `names` the collections there are.
    pub fn begin_experiment(
        &mut self,
        decision: Decision,
        ctx: &OptContext,
        kind: Option<i64>,
        names: &Vec<String>,
    ) -> (r: Result<u64, Error>)
        requires
            old(self)@.ok(),
            old(self)@.next_id < u64::MAX,
        ensures
            final(self)@.ok(),
            match refusal(old(self)@, decision@, ctx@, kind, texts(names@)) {
                Some(why) => r matches Err(e) && e@ == ErrorModel::InvalidOptimization(why)
                    && final(self)@ == old(self)@,
                None => r == Ok::<u64, Error>(old(self)@.next_id) && final(self)@ == (TrialsModel {
                    running: old(self)@.running.push(
                        proposed(
                            old(self)@.next_id,
                            decision@,
                            evidence_from(decision@.scope, texts(names@)),
                        ),
                    ),
                    next_id: (old(self)@.next_id + 1) as u64,
                    ..old(self)@
                }),
            },
    {
        match decision.action {
            DecisionAction::Enable => {},
            DecisionAction::Disable => {
                return Err(
                    Error::InvalidOptimization(
                        phrase(
                            "only an enable can be experimented on, not a ",
                            decision.action.as_str(),
                        ),
                    ),
                );
            },
        }
        let name = decision.optimization.as_str();
        let b = match Builtin::named(name) {
            None => {
                return Err(Error::InvalidOptimization(phrase(name, " is not registered")));
            },
            Some(b) => b,
        };
        let plan = b.plan_enable(ctx, decision.scope.as_str(), kind);
        assert(plan@.apply.len() == plan.apply@.len());
        if plan.apply.len() == 0 {
            let mut s = phrase(name, " has nothing to do for ");
            s.append(decision.scope.as_str());
            return Err(Error::InvalidOptimization(s));
        }
        if let Some(bad) = find_unshadowable(&plan.apply) {
            let mut s = phrase(name, " cannot be experimented on: ");
            s.append(bad.describe().as_str());
            s.append(" leaves no old path to compare against");
            return Err(Error::InvalidOptimization(s));
        }
        let collection = evidence_for(decision.scope.as_str(), names);
        if let Some(clash) = self.find_clash(collection.as_str()) {
            return Err(Error::InvalidOptimization(clash_words(clash, collection.as_str())));
        }
        let id = self.next_id;
        let ghost before = self@.running;
        let ghost fresh = proposed(id, decision@, collection@);
        proof {
            lemma_no_clash(before, collection@);
        }
        self.next_id = id + 1;
        self.running.push(LiveExperiment::new(id, decision, collection));
        assert(self@.running =~= before.push(fresh));
        Ok(id)
    }
}

// -- phases ------------------------------------------------------------------

/// An experiment that has been taken out and is to be undone, if it built
/// anything that has to go, before it is finished.
pub struct Retiring {
    pub live: LiveExperiment,
    pub undo: Option<Decision>,
    pub why: String,
    pub promoted: bool,
}

/// What a [`Retiring`] experiment is.
pub struct RetiringModel {
    pub live: LiveModel,
    pub undo: Option<DecisionModel>,
    pub why: Seq<char>,
    pub promoted: bool,
}

pub open spec fn optional_decision(d: Option<Decision>) -> Option<DecisionModel> {
    match d {
        Some(d) => Some(d@),
        None => None,
    }
}

impl View for Retiring {
    type V = RetiringModel;

    open spec fn view(&self) -> RetiringModel {
        RetiringModel {
            live: self.live@,
            undo: optional_decision(self.undo),
            why: self.why@,
            promoted: self.promoted,
        }
    }
}

/// What is left to do once an experiment has entered a phase.
pub enum Step {
    /// Nothing.
    Stay,
    /// Carry out this decision, hidden.
    Build(Decision),
    /// Undo what has to be undone and finish.
    Retire(Retiring),
}

pub enum StepModel {
    Stay,
    Build(DecisionModel),
    Retire(RetiringModel),
}

impl View for Step {
    type V = StepModel;

    open spec fn view(&self) -> StepModel {
        match self {
            Step::Stay => StepModel::Stay,
            Step::Build(d) => StepModel::Build(d@),
            Step::Retire(r) => StepModel::Retire(r@),
        }
    }
}

/// An experiment as it is at the start of a phase. Every measuring phase earns its
/// own promotion.
pub open spec fn in_phase(l: LiveModel, p: Phase) -> LiveModel {
    if measuring(p) {
        LiveModel {
            phase: p,
            baseline_served: 0,
            candidate_served: 0,
            baseline_errors: 0,
            candidate_errors: 0,
            ..l
        }
    } else {
        LiveModel { phase: p, ..l }
    }
}

/// The decision that builds an experiment's candidate.
pub open spec fn trialled(id: u64, d: DecisionModel) -> DecisionModel {
    DecisionModel {
        trigger: "trialled by experiment #"@ + dec_text(id as nat) + ": "@ + d.trigger,
        ..d
    }
}

/// The decision that takes an experiment's candidate away again.
pub open spec fn undoing(id: u64, d: DecisionModel, why: Seq<char>) -> DecisionModel {
    DecisionModel {
        action: DecisionAction::Disable,
        trigger: "experiment #"@ + dec_text(id as nat) + " reverted: "@ + why,
        ..d
    }
}

/// An experiment on its way out, and what has to be undone for it.
pub open spec fn leaving(m: Mask, l: LiveModel, why: Seq<char>, promoted: bool) -> RetiringModel {
    RetiringModel {
        live: LiveModel { candidates: mask_of(m, l.id), ..l },
        undo: if !promoted && !mask_empty_for(m, l.id) {
            Some(undoing(l.id, l.decision, why))
        } else {
            None
        },
        why,
        promoted,
    }
}

/// Experiments, and what is left to do, once the one at `i` has moved to a phase.
pub open spec fn moved_to(
    m: TrialsModel,
    i: int,
    p: Phase,
    ram: u64,
    outcome: Seq<char>,
) -> (TrialsModel, StepModel) {
    let l = in_phase(m.running[i], p);
    match p {
        Phase::Building => (
            TrialsModel {
                running: m.running.update(i, LiveModel { ram_before: ram, ..l }),
                candidate_visible: false,
                recording: Some(l.id),
                ..m
            },
            StepModel::Build(trialled(l.id, l.decision)),
        ),
        Phase::Promoted => (
            TrialsModel { running: m.running.remove(i), ..m },
            StepModel::Retire(leaving(m.hidden, l, "promoted"@, true)),
        ),
        Phase::Reverted => (
            TrialsModel { running: m.running.remove(i), ..m },
            StepModel::Retire(leaving(m.hidden, l, outcome, false)),
        ),
        _ => (TrialsModel { running: m.running.update(i, l), ..m }, StepModel::Stay),
    }
}

proof fn lemma_left_out(s: Seq<LiveModel>, i: int)
    requires
        0 <= i < s.len(),
        in_order(s),
        apart(s),
    ensures
        in_order(s.remove(i)),
        apart(s.remove(i)),
{
    let t = s.remove(i);
    assert forall|a: int, b: int| 0 <= a < b < t.len() implies (#[trigger] t[a]).id < (
    #[trigger] t[b]).id by {
        let x = if a < i { a } else { a + 1 };
        let y = if b < i { b } else { b + 1 };
        assert(t[a] == s[x] && t[b] == s[y]);
    }
    assert forall|a: int, b: int| 0 <= a < b < t.len() implies !overlapping(
        (#[trigger] t[a]).collection,
        (#[trigger] t[b]).collection,
    ) by {
        let x = if a < i { a } else { a + 1 };
        let y = if b < i { b } else { b + 1 };
        assert(t[a] == s[x] && t[b] == s[y]);
    }
}

impl Trials {
    /// Take the experiment at `i` out.
    fn take_out(&mut self, i: usize, why: &str, promoted: bool) -> (r: Retiring)
        requires
            old(self)@.ok(),
            i < old(self)@.running.len(),
        ensures
            final(self)@.ok(),
            final(self)@ == (TrialsModel {
                running: old(self)@.running.remove(i as int),
                ..old(self)@
            }),
            r@ == leaving(old(self)@.hidden, old(self)@.running[i as int], why@, promoted),
    {
        let ghost before = self@;
        let mut live = self.running.remove(i);
        assert(self@.running =~= before.running.remove(i as int));
        assert(live@ == before.running[i as int]);
        proof {
            lemma_left_out(before.running, i as int);
            assert forall|k: int| 0 <= k < self@.running.len() implies 1 <= (
            #[trigger] self@.running[k]).id < self@.next_id by {
                let x = if k < i { k } else { k + 1 };
                assert(self@.running[k] == before.running[x]);
            }
        }
        live.candidates = self.hidden.only(live.id);
        let undo = if !promoted && !self.hidden.is_empty_for(live.id) {
            let mut trigger = String::from_str("experiment #");
            push_dec(&mut trigger, live.id);
            trigger.append(" reverted: ");
            trigger.append(why);
            let d = Decision {
                optimization: live.decision.optimization.clone(),
                scope: live.decision.scope.clone(),
                action: DecisionAction::Disable,
                trigger,
            };
            Some(d)
        } else {
            None
        };
        Retiring { live, undo, why: why.to_owned(), promoted }
    }

    /// Move an experiment to the phase its evidence earned it. `ram` is what
    /// derived structures take now, `outcome` why it was reverted, if it was.
    pub fn advance_experiment(&mut self, id: u64, after: Phase, ram: u64, outcome: &str) -> (step:
        Step)
        requires
            old(self)@.ok(),
        ensures
            final(self)@.ok(),
            match place_of(old(self)@.running, id) {
                None => final(self)@ == old(self)@ && step@ == StepModel::Stay,
                Some(i) => if old(self)@.running[i].phase == after {
                    final(self)@ == old(self)@ && step@ == StepModel::Stay
                } else {
                    (final(self)@, step@) == moved_to(old(self)@, i, after, ram, outcome@)
                },
            },
    {
        proof {
            lemma_place_of(self@.running, id);
        }
        let i = match self.experiment_index(id) {
            None => {
                return Step::Stay;
            },
            Some(i) => i,
        };
        let ghost before = self@;
        let ghost old_live = self.running@[i as int];
        assert(before.running[i as int] == old_live@);
        if self.running[i].phase == after {
            return Step::Stay;
        }
        self.running[i].phase = after;
        if after.is_measuring() {
            self.running[i].reset_measurements();
        }
        let ghost l = in_phase(before.running[i as int], after);
        assert(self.running@[i as int]@ == l);
        assert(self@.running =~= before.running.update(i as int, l));
        match after {
            Phase::Building => {
                self.running[i].set_ram_before(ram);
                assert(self@.running =~= before.running.update(
                    i as int,
                    LiveModel { ram_before: ram, ..l },
                ));
                self.candidate_visible = false;
                self.recording = Some(id);
                let d = &self.running[i].decision;
                let mut trigger = String::from_str("trialled by experiment #");
                push_dec(&mut trigger, id);
                trigger.append(": ");
                trigger.append(d.trigger.as_str());
                let build = Decision {
                    optimization: d.optimization.clone(),
                    scope: d.scope.clone(),
                    action: d.action,
                    trigger,
                };
                assert(build@ == trialled(id, l.decision));
                Step::Build(build)
            },
            Phase::Promoted => {
                assert(self@.running.remove(i as int) =~= before.running.remove(i as int));
                Step::Retire(self.take_out(i, "promoted", true))
            },
            Phase::Reverted => {
                assert(self@.running.remove(i as int) =~= before.running.remove(i as int));
                Step::Retire(self.take_out(i, outcome, false))
            },
            _ => Step::Stay,
        }
    }
}

// -- building and ending -----------------------------------------------------

/// A label and what became of the decision it stands for.
pub open spec fn refused_text(r: (String, String)) -> Seq<char> {
    r.0@ + ": "@ + r.1@
}

/// Why a candidate that was to be built is given up, if it is.
pub open spec fn build_fault(
    m: Mask,
    id: u64,
    all_applied: bool,
    rejected: Seq<(String, String)>,
) -> Option<Seq<char>> {
    if !all_applied {
        Some(
            "the controller refused it ("@ + joined(
                rejected.map_values(|r: (String, String)| refused_text(r)),
                "; "@,
            ) + ")"@,
        )
    } else if mask_empty_for(m, id) {
        Some("the change built nothing that can be held beside the current representation"@)
    } else {
        None
    }
}

/// Experiments without the one of an id, and that one on its way out, reverted.
pub open spec fn aborted(m: TrialsModel, id: u64, why: Seq<char>) -> (
    TrialsModel,
    Option<RetiringModel>,
) {
    match place_of(m.running, id) {
        None => (m, None),
        Some(i) => (
            TrialsModel { running: m.running.remove(i), ..m },
            Some(
                leaving(
                    m.hidden,
                    LiveModel { phase: Phase::Reverted, ..m.running[i] },
                    why,
                    false,
                ),
            ),
        ),
    }
}

pub open spec fn optional_retiring(r: Option<Retiring>) -> Option<RetiringModel> {
    match r {
        Some(r) => Some(r@),
        None => None,
    }
}

/// What is said of an experiment that ended, given what its trials showed.
pub open spec fn ending_text(r: RetiringModel, shadow: Seq<char>) -> Seq<char> {
    "experiment #"@ + dec_text(r.live.id as nat) + if r.promoted {
        " promoted — "@ + shadow + ", "@ + dec_text(r.live.candidate.samples as nat)
            + " canary queries on the candidate"@
    } else {
        " reverted — "@ + r.why
    }
}

/// Experiments once one has ended: nothing of it is hidden any more.
pub open spec fn ended(m: TrialsModel, l: LiveModel) -> TrialsModel {
    TrialsModel {
        finished: m.finished.push(l),
        hidden: mask_without(m.hidden, l.id),
        candidate_visible: false,
        under_test: None,
        ..m
    }
}

/// What to enter in the log of decisions for an experiment that ended.
pub struct Ending {
    pub decision: Decision,
    /// Whether the change was kept.
    pub applied: bool,
    pub detail: String,
}

proof fn lemma_others_below(m: Mask, id: u64, n: u64)
    requires
        masked_below(m, n),
    ensures
        masked_below(mask_without(m, id), n),
{
    lemma_other_indexes_below(m.indexes, id, n);
    lemma_other_listed_below(m.column_store, id, n);
    lemma_other_listed_below(m.direct, id, n);
}

proof fn lemma_other_indexes_below(s: Seq<HiddenIndex>, id: u64, n: u64)
    requires
        forall|i: int| 0 <= i < s.len() ==> (#[trigger] s[i]).0 < n,
    ensures
        forall|i: int|
            0 <= i < other_indexes(s, id).len() ==> (#[trigger] other_indexes(s, id)[i]).0 < n,
    decreases s.len(),
{
    if s.len() > 0 {
        assert forall|i: int| 0 <= i < s.drop_last().len() implies (#[trigger] s.drop_last()[i]).0
            < n by {
            assert(s.drop_last()[i] == s[i]);
        }
        assert(s[s.len() - 1].0 < n);
        lemma_other_indexes_below(s.drop_last(), id, n);
        let h = other_indexes(s.drop_last(), id);
        assert forall|i: int| 0 <= i < other_indexes(s, id).len() implies (#[trigger] other_indexes(
            s,
            id,
        )[i]).0 < n by {
            if i < h.len() {
                assert(h[i].0 < n);
            }
        }
    }
}

proof fn lemma_other_listed_below(s: Seq<(u64, Seq<char>)>, id: u64, n: u64)
    requires
        forall|i: int| 0 <= i < s.len() ==> (#[trigger] s[i]).0 < n,
    ensures
        forall|i: int|
            0 <= i < other_listed(s, id).len() ==> (#[trigger] other_listed(s, id)[i]).0 < n,
    decreases s.len(),
{
    if s.len() > 0 {
        assert forall|i: int| 0 <= i < s.drop_last().len() implies (#[trigger] s.drop_last()[i]).0
            < n by {
            assert(s.drop_last()[i] == s[i]);
        }
        assert(s[s.len() - 1].0 < n);
        lemma_other_listed_below(s.drop_last(), id, n);
        let h = other_listed(s.drop_last(), id);
        assert forall|i: int| 0 <= i < other_listed(s, id).len() implies (#[trigger] other_listed(
            s,
            id,
        )[i]).0 < n by {
            if i < h.len() {
                assert(h[i].0 < n);
            }
        }
    }
}

/// Which collection a candidate that is being built is for.
pub open spec fn built_for(m: TrialsModel, id: u64) -> Seq<char> {
    match place_of(m.running, id) {
        Some(i) => m.running[i].collection,
        None => Seq::empty(),
    }
}

/// What is hidden once a change has been carried out.
pub open spec fn hidden_after(m: TrialsModel, a: ActionModel) -> Mask {
    match m.recording {
        Some(id) => mask_with(m.hidden, id, a, built_for(m, id)),
        None => m.hidden,
    }
}

impl Trials {
    /// Stop one experiment. What it built is still hidden.
    pub fn abort_experiment_by_id(&mut self, id: u64, why: &str) -> (r: Option<Retiring>)
        requires
            old(self)@.ok(),
        ensures
            final(self)@.ok(),
            (final(self)@, optional_retiring(r)) == aborted(old(self)@, id, why@),
    {
        proof {
            lemma_place_of(self@.running, id);
        }
        match self.experiment_index(id) {
            None => None,
            Some(i) => {
                let ghost before = self@;
                assert(before.running[i as int] == self.running@[i as int]@);
                self.running[i].phase = Phase::Reverted;
                let ghost l = LiveModel { phase: Phase::Reverted, ..before.running[i as int] };
                assert(self@.running =~= before.running.update(i as int, l));
                assert(self@.running.remove(i as int) =~= before.running.remove(i as int));
                Some(self.take_out(i, why, false))
            },
        }
    }

    /// Note what a change that was just carried out built, if an experiment's
    /// candidate is being built.
    pub fn record_action(&mut self, action: &Action)
        requires
            old(self)@.ok(),
        ensures
            final(self)@.ok(),
            final(self)@ == (TrialsModel {
                hidden: hidden_after(old(self)@, action@),
                ..old(self)@
            }),
    {
        if let Some(id) = self.recording {
            proof {
                lemma_place_of(self@.running, id);
            }
            let collection = match self.experiment_index(id) {
                Some(i) => {
                    assert(self@.running[i as int] == self.running@[i as int]@);
                    self.running[i].collection.clone()
                },
                None => {
                    let none = String::new();
                    assert(none@ =~= Seq::empty());
                    none
                },
            };
            self.hidden.record(id, action, collection.as_str());
        }
    }

    /// No candidate is being built any more.
    pub fn stop_recording(&mut self)
        requires
            old(self)@.ok(),
        ensures
            final(self)@.ok(),
            final(self)@ == (TrialsModel { recording: None, ..old(self)@ }),
    {
        self.recording = None;
    }

    /// Judge a candidate's build by what the controller reported of it: without a
    /// structure to compare there is no experiment to run.
    pub fn finish_build(&mut self, id: u64, all_applied: bool, rejected: &Vec<(String, String)>)
        -> (r: Option<Retiring>)
        requires
            old(self)@.ok(),
        ensures
            final(self)@.ok(),
            match build_fault(old(self)@.hidden, id, all_applied, rejected@) {
                None => r is None && final(self)@ == (TrialsModel {
                    recording: None,
                    ..old(self)@
                }),
                Some(why) => (final(self)@, optional_retiring(r)) == aborted(
                    (TrialsModel { recording: None, ..old(self)@ }),
                    id,
                    why,
                ),
            },
    {
        self.recording = None;
        if !all_applied {
            let ghost want = rejected@.map_values(|r: (String, String)| refused_text(r));
            let mut parts: Vec<String> = Vec::new();
            let mut i: usize = 0;
            while i < rejected.len()
                invariant
                    i <= rejected@.len(),
                    parts@.len() == i,
                    forall|k: int|
                        0 <= k < i ==> (#[trigger] parts@[k])@ == refused_text(rejected@[k]),
                decreases rejected@.len() - i,
            {
                let mut s = phrase(rejected[i].0.as_str(), ": ");
                s.append(rejected[i].1.as_str());
                parts.push(s);
                i += 1;
            }
            assert(texts(parts@) =~= want);
            let mut why = phrase("the controller refused it (", join(&parts, "; ").as_str());
            why.append(")");
            self.abort_experiment_by_id(id, why.as_str())
        } else if self.hidden.is_empty_for(id) {
            self.abort_experiment_by_id(
                id,
                "the change built nothing that can be held beside the current representation",
            )
        } else {
            None
        }
    }

    /// End an experiment that was taken out, once what had to be undone is undone.
    /// Unmasking is what promotion is: the structure was there the whole time.
    pub fn finish_retiring(&mut self, r: Retiring) -> (e: Ending)
        requires
            old(self)@.ok(),
        ensures
            final(self)@.ok(),
            final(self)@ == ended(old(self)@, r@.live),
            e.decision@ == r@.live.decision,
            e.applied == r@.promoted,
            exists|shadow: Seq<char>| #[trigger]
                says(r@.live.shadow, shadow) && e.detail@ == ending_text(r@, shadow),
    {
        let ghost before = self@;
        proof {
            lemma_others_below(before.hidden, r@.live.id, before.next_id);
        }
        let Retiring { live, undo: _, why, promoted } = r;
        self.hidden.forget(live.id);
        self.candidate_visible = false;
        self.under_test = None;
        let mut detail = String::from_str("experiment #");
        push_dec(&mut detail, live.id);
        let shadow = live.shadow.describe();
        if promoted {
            detail.append(" promoted — ");
            detail.append(shadow.as_str());
            detail.append(", ");
            push_dec(&mut detail, live.candidate.samples);
            detail.append(" canary queries on the candidate");
        } else {
            detail.append(" reverted — ");
            detail.append(why.as_str());
        }
        assert(detail@ =~= ending_text(r@, shadow@));
        assert(says(r@.live.shadow, shadow@));
        let decision = live.decision.dup();
        self.finished.push(live);
        assert(self@.finished =~= before.finished.push(r@.live));
        Ending { decision, applied: promoted, detail }
    }
}

// -- serving queries ---------------------------------------------------------

/// Whether a query against a collection is evidence for an experiment.
pub open spec fn covers(l: LiveModel, collection: Seq<char>) -> bool {
    l.collection.len() == 0 || l.collection == collection
}

/// Where the first experiment stands that measures queries against a collection.
pub open spec fn evidenced(s: Seq<LiveModel>, collection: Seq<char>, from: int) -> Option<int>
    decreases s.len() - from,
{
    if from < 0 || from >= s.len() {
        None
    } else if measuring(s[from].phase) && covers(s[from], collection) {
        Some(from)
    } else {
        evidenced(s, collection, from + 1)
    }
}

/// Which path, or paths, a query takes.
#[derive(Clone, Copy, Debug, PartialEq, Eq, Structural)]
pub enum Routing {
    /// It is evidence for no experiment.
    Plain,
    /// Both ways; the caller gets the baseline's answer.
    Shadow(u64),
    /// One way, whose answer is returned.
    Canary { id: u64, candidate: bool },
}

/// Experiments, and the path, for a query against a collection.
pub open spec fn routed(m: TrialsModel, collection: Seq<char>) -> (TrialsModel, Routing) {
    match evidenced(m.running, collection, 0) {
        None => (m, Routing::Plain),
        Some(i) => {
            let l = m.running[i];
            let n = TrialsModel { under_test: Some(l.id), ..m };
            match l.phase {
                Phase::Shadow => (n, Routing::Shadow(l.id)),
                Phase::Canary(percent) => {
                    let candidate = routes(l.routed as nat, percent as nat);
                    (
                        TrialsModel {
                            running: m.running.update(
                                i,
                                LiveModel { routed: ticked(l.routed), ..l },
                            ),
                            candidate_visible: candidate,
                            ..n
                        },
                        Routing::Canary { id: l.id, candidate },
                    )
                },
                _ => (m, Routing::Plain),
            }
        },
    }
}

/// An experiment with one more query served by a side.
pub open spec fn served(l: LiveModel, candidate: bool, ok: bool) -> LiveModel {
    if candidate {
        LiveModel {
            candidate_served: ticked(l.candidate_served),
            candidate_errors: if ok {
                l.candidate_errors
            } else {
                ticked(l.candidate_errors)
            },
            ..l
        }
    } else {
        LiveModel {
            baseline_served: ticked(l.baseline_served),
            baseline_errors: if ok {
                l.baseline_errors
            } else {
                ticked(l.baseline_errors)
            },
            ..l
        }
    }
}

/// The one experiment whose candidate the query being answered may see.
pub open spec fn revealed(m: TrialsModel) -> Option<u64> {
    if m.candidate_visible {
        m.under_test
    } else {
        None
    }
}

/// An experiment with one more query answered both ways. A candidate that failed
/// where the baseline did not is counted as an error of the candidate, and as a
/// disagreement.
pub open spec fn compared(
    l: LiveModel,
    base: Result<Rows, Error>,
    cand: Result<Rows, Error>,
    nanos: (u64, u64),
    explain: Seq<char>,
) -> LiveModel {
    match base {
        Ok(b) => {
            let shadow = recorded(
                l.shadow,
                trial_of(rows_model(b@), answered(cand), nanos.0, nanos.1),
                disagreement(b, cand, explain),
            );
            served(served(LiveModel { shadow, ..l }, false, true), true, cand is Ok)
        },
        Err(_) => if l.shadow.last is Some {
            served(served(l, false, false), true, false)
        } else {
            l
        },
    }
}

/// Experiments with one of them changed and no query under way.
pub open spec fn rested(m: TrialsModel, i: int, l: LiveModel) -> TrialsModel {
    TrialsModel {
        running: m.running.update(i, l),
        candidate_visible: false,
        under_test: None,
        ..m
    }
}

impl Trials {
    /// The one experiment whose candidate the query being answered may see, if
    /// any. That a candidate is being served does not say whose; whose experiment
    /// it is does not say that its candidate is being served.
    pub fn revealed(&self) -> (r: Option<u64>)
        ensures
            r == revealed(self@),
    {
        if self.candidate_visible {
            self.under_test
        } else {
            None
        }
    }

    /// The experiment, if any, that a query against a collection is evidence for.
    pub fn experiment_for(&self, collection: &str) -> (r: Option<u64>)
        ensures
            match evidenced(self@.running, collection@, 0) {
                Some(i) => r == Some(self@.running[i].id),
                None => r is None,
            },
    {
        match self.place_for(collection) {
            Some(i) => {
                assert(self@.running[i as int] == self.running@[i as int]@);
                Some(self.running[i].id)
            },
            None => None,
        }
    }

    fn place_for(&self, collection: &str) -> (r: Option<usize>)
        ensures
            match evidenced(self@.running, collection@, 0) {
                Some(i) => r matches Some(k) && k == i && k < self.running@.len() && measuring(
                    self@.running[i].phase,
                ),
                None => r is None,
            },
    {
        let ghost s = self@.running;
        let mut i: usize = 0;
        while i < self.running.len()
            invariant
                i <= self.running@.len(),
                s == self@.running,
                s.len() == self.running@.len(),
                evidenced(s, collection@, 0) == evidenced(s, collection@, i as int),
            decreases self.running@.len() - i,
        {
            assert(s[i as int] == self.running@[i as int]@);
            let e = &self.running[i];
            if e.phase.is_measuring() && (e.collection.as_str().is_empty() || str_eq(
                e.collection.as_str(),
                collection,
            )) {
                return Some(i);
            }
            i += 1;
        }
        None
    }

    /// Decide which way a query against a collection goes, by the phase of the
    /// experiment it is evidence for.
    pub fn experiment_query(&mut self, collection: &str) -> (r: Routing)
        requires
            old(self)@.ok(),
        ensures
            final(self)@.ok(),
            (final(self)@, r) == routed(old(self)@, collection@),
    {
        let i = match self.place_for(collection) {
            None => {
                return Routing::Plain;
            },
            Some(i) => i,
        };
        let ghost before = self@;
        assert(before.running[i as int] == self.running@[i as int]@);
        let id = self.running[i].id;
        match self.running[i].phase {
            Phase::Shadow => {
                self.under_test = Some(id);
                Routing::Shadow(id)
            },
            Phase::Canary(percent) => {
                self.under_test = Some(id);
                let candidate = self.running[i].route(percent);
                self.candidate_visible = candidate;
                assert(self@.running =~= routed(before, collection@).0.running);
                Routing::Canary { id, candidate }
            },
            _ => Routing::Plain,
        }
    }

    /// Let the query being answered see, or not see, the candidate under test.
    pub fn show_candidate(&mut self, on: bool)
        requires
            old(self)@.ok(),
        ensures
            final(self)@.ok(),
            final(self)@ == (TrialsModel { candidate_visible: on, ..old(self)@ }),
    {
        self.candidate_visible = on;
    }

    /// Take in what a query returned that was answered one way.
    pub fn canary_done(&mut self, id: u64, candidate: bool, ok: bool)
        requires
            old(self)@.ok(),
        ensures
            final(self)@.ok(),
            final(self)@ == match place_of(old(self)@.running, id) {
                Some(i) => rested(old(self)@, i, served(old(self)@.running[i], candidate, ok)),
                None => TrialsModel { candidate_visible: false, under_test: None, ..old(self)@ },
            },
    {
        proof {
            lemma_place_of(self@.running, id);
        }
        let ghost before = self@;
        self.candidate_visible = false;
        self.under_test = None;
        if let Some(i) = self.experiment_index(id) {
            assert(before.running[i as int] == self.running@[i as int]@);
            if candidate {
                self.running[i].record_candidate(ok);
            } else {
                self.running[i].record_baseline(ok);
            }
            assert(self@.running =~= before.running.update(
                i as int,
                served(before.running[i as int], candidate, ok),
            ));
        }
    }

    /// Take in what a query returned that was answered both ways. The caller gets
    /// the baseline's answer, whatever the candidate's was.
    pub fn shadow_done(
        &mut self,
        id: u64,
        base: Result<Rows, Error>,
        cand: Result<Rows, Error>,
        baseline_nanos: u64,
        candidate_nanos: u64,
        explain: &str,
    ) -> (r: Result<Rows, Error>)
        requires
            old(self)@.ok(),
            place_of(old(self)@.running, id) is Some,
        ensures
            final(self)@.ok(),
            r == base,
            final(self)@ == rested(
                old(self)@,
                place_of(old(self)@.running, id)->0,
                compared(
                    old(self)@.running[place_of(old(self)@.running, id)->0],
                    base,
                    cand,
                    (baseline_nanos, candidate_nanos),
                    explain@,
                ),
            ),
    {
        proof {
            lemma_place_of(self@.running, id);
        }
        let ghost before = self@;
        self.candidate_visible = false;
        self.under_test = None;
        match self.experiment_index(id) {
            None => base,
            Some(i) => {
                assert(before.running[i as int] == self.running@[i as int]@);
                let ok = cand.is_ok();
                let r = trial(
                    base,
                    cand,
                    baseline_nanos,
                    candidate_nanos,
                    explain,
                    &mut self.running[i].shadow,
                );
                if self.running[i].shadow.last_trial().is_some() {
                    self.running[i].record_baseline(r.is_ok());
                    self.running[i].record_candidate(r.is_ok() && ok);
                }
                assert(self@.running =~= before.running.update(
                    i as int,
                    compared(
                        before.running[i as int],
                        base,
                        cand,
                        (baseline_nanos, candidate_nanos),
                        explain@,
                    ),
                ));
                r
            },
        }
    }
}

/// A query is evidence for at most one running experiment.
pub proof fn a_query_is_evidence_for_one_experiment_at_most(
    m: TrialsModel,
    collection: Seq<char>,
    i: int,
    j: int,
)
    requires
        m.ok(),
        0 <= i < m.running.len(),
        0 <= j < m.running.len(),
        covers(m.running[i], collection),
        covers(m.running[j], collection),
    ensures
        i == j,
{
    if i < j {
        assert(!overlapping(m.running[i].collection, m.running[j].collection));
    } else if j < i {
        assert(!overlapping(m.running[j].collection, m.running[i].collection));
    }
}

/// A candidate is hidden from every query but those its own experiment serves
/// with it.
pub proof fn a_candidate_is_hidden_from_every_query_but_its_own(m: TrialsModel, i: int)
    requires
        m.ok(),
        0 <= i < m.hidden.indexes.len(),
        revealed(m) != Some(m.hidden.indexes[i].0),
    ensures
        index_hidden(
            m.hidden,
            revealed(m),
            m.hidden.indexes[i].1,
            m.hidden.indexes[i].2,
            m.hidden.indexes[i].3,
        ),
{
}

/// A candidate that does not answer as the baseline does, by other rows or by
/// failing, is found out by the first query that shows it. And a query that is
/// evidence for no experiment, or is answered both ways, reveals nothing that was not
/// revealed.
pub proof fn an_unproven_answer_is_not_served(
    m: TrialsModel,
    l: LiveModel,
    collection: Seq<char>,
    base: Rows,
    cand: Result<Rows, Error>,
    nanos: (u64, u64),
    explain: Seq<char>,
)
    requires
        answered(cand) != Some(rows_model(base@)),
    ensures
        compared(l, Ok(base), cand, nanos, explain).shadow.divergences == ticked(
            l.shadow.divergences,
        ),
        compared(l, Ok(base), cand, nanos, explain).shadow.first_divergence is Some,
        cand is Err ==> compared(l, Ok(base), cand, nanos, explain).candidate_errors == ticked(
            l.candidate_errors,
        ),
        compared(l, Ok(base), cand, nanos, explain).baseline_errors == l.baseline_errors,
        routed(m, collection).1 is Plain ==> routed(m, collection).0 == m,
        routed(m, collection).1 is Shadow ==> routed(m, collection).0.candidate_visible
            == m.candidate_visible,
{
}

// -- reporting ---------------------------------------------------------------

/// How many experiments are in a phase.
pub open spec fn count_in(s: Seq<LiveModel>, p: Phase) -> nat
    decreases s.len(),
{
    if s.len() == 0 {
        0
    } else {
        count_in(s.drop_last(), p) + if s.last().phase == p {
            1nat
        } else {
            0
        }
    }
}

/// Whether a text is what each of a list of experiments says of itself, after what
/// its state machine says.
pub open spec fn explained(s: Seq<LiveModel>, heads: Seq<Seq<char>>, words: Seq<Seq<char>>) -> bool {
    &&& words.len() == s.len()
    &&& forall|i: int| 0 <= i < s.len() ==> explains(s[i], heads[i], #[trigger] words[i])
}

pub open spec fn explains(l: LiveModel, head: Seq<char>, words: Seq<char>) -> bool {
    exists|shadow: Seq<char>| #[trigger]
        says(l.shadow, shadow) && words == live_text(l, head, shadow)
}

/// Whether a text is what there is to say of experiments.
pub open spec fn told(m: TrialsModel, heads: Seq<Seq<char>>, text: Seq<char>) -> bool {
    if m.running.len() > 0 {
        exists|words: Seq<Seq<char>>| #[trigger]
            explained(m.running, heads, words) && text == joined(words, "\n"@)
    } else if m.finished.len() > 0 {
        explains(m.finished.last(), heads[0], text)
    } else {
        text == "no experiments\n"@
    }
}

/// How many experiments there is something to say of.
pub open spec fn told_of(m: TrialsModel) -> nat {
    if m.running.len() > 0 {
        m.running.len()
    } else if m.finished.len() > 0 {
        1
    } else {
        0
    }
}

/// What an experiment is proving: an optimization, for a scope.
pub open spec fn subjects(s: Seq<LiveModel>) -> Seq<(Seq<char>, Seq<char>)> {
    s.map_values(|l: LiveModel| (l.decision.optimization, l.decision.scope))
}

pub open spec fn pairs_of(s: Seq<(String, String)>) -> Seq<(Seq<char>, Seq<char>)> {
    s.map_values(|p: (String, String)| (p.0@, p.1@))
}

/// Whether a decision leaves an old path to compare a new one against.
pub open spec fn provable(d: DecisionModel, c: ContextModel, kind: Option<i64>) -> bool {
    &&& d.action == DecisionAction::Enable
    &&& registered(d.optimization) matches Some(b) && {
        let changes = enabling(b, c, d.scope, kind).apply;
        changes.len() > 0 && first_unshadowable(changes) is None
    }
}

/// A decision, and the kind of index it asks for.
pub type Proposal = (Decision, Option<i64>);

/// The first of the decisions that can be proved.
pub open spec fn first_provable(s: Seq<Proposal>, c: ContextModel, from: int) -> Option<int>
    decreases s.len() - from,
{
    if from < 0 || from >= s.len() {
        None
    } else if provable(s[from].0@, c, s[from].1) {
        Some(from)
    } else {
        first_provable(s, c, from + 1)
    }
}

/// Whether a decision leaves an old path to compare a new one against.
pub fn is_shadowable(decision: &Decision, ctx: &OptContext, kind: Option<i64>) -> (r: bool)
    ensures
        r == provable(decision@, ctx@, kind),
{
    match decision.action {
        DecisionAction::Disable => false,
        DecisionAction::Enable => match Builtin::named(decision.optimization.as_str()) {
            None => false,
            Some(b) => {
                let plan = b.plan_enable(ctx, decision.scope.as_str(), kind);
                assert(plan@.apply.len() == plan.apply@.len());
                plan.apply.len() > 0 && find_unshadowable(&plan.apply).is_none()
            },
        },
    }
}

fn count_phase(list: &Vec<LiveExperiment>, p: Phase) -> (n: usize)
    ensures
        n == count_in(lives(list@), p),
{
    let ghost s = lives(list@);
    let mut n: usize = 0;
    let mut i: usize = 0;
    assert(s.take(0) =~= Seq::empty());
    while i < list.len()
        invariant
            i <= list@.len(),
            s == lives(list@),
            n == count_in(s.take(i as int), p),
            n <= i,
        decreases list@.len() - i,
    {
        assert(s.take(i + 1).drop_last() =~= s.take(i as int));
        assert(s.take(i + 1).last() == list@[i as int]@);
        if list[i].phase == p {
            n += 1;
        }
        i += 1;
    }
    assert(s.take(i as int) =~= s);
    n
}

impl Trials {
    /// The oldest running experiment, if any.
    pub fn experiment(&self) -> (r: Option<&LiveExperiment>)
        ensures
            match r {
                Some(e) => self@.running.len() > 0 && e@ == self@.running[0],
                None => self@.running.len() == 0,
            },
    {
        if self.running.len() > 0 {
            assert(self@.running[0] == self.running@[0]@);
            Some(&self.running[0])
        } else {
            None
        }
    }

    /// Every experiment running right now, oldest first.
    pub fn experiments(&self) -> (r: &Vec<LiveExperiment>)
        ensures
            lives(r@) == self@.running,
    {
        &self.running
    }

    /// Experiments that reached a verdict, oldest first.
    pub fn finished_experiments(&self) -> (r: &Vec<LiveExperiment>)
        ensures
            lives(r@) == self@.finished,
    {
        &self.finished
    }

    /// Experiments that have ever been started.
    pub fn experiments_started(&self) -> (n: u64)
        requires
            self@.ok(),
        ensures
            n == self@.next_id - 1,
    {
        self.next_id - 1
    }

    /// Experiments that ended by being promoted.
    pub fn promoted_count(&self) -> (n: usize)
        ensures
            n == count_in(self@.finished, Phase::Promoted),
    {
        count_phase(&self.finished, Phase::Promoted)
    }

    /// Experiments that ended by being reverted.
    pub fn reverted_count(&self) -> (n: usize)
        ensures
            n == count_in(self@.finished, Phase::Reverted),
    {
        count_phase(&self.finished, Phase::Reverted)
    }

    /// Fold the evidence of an experiment into the form it is judged in. The
    /// percentiles are those of the queries each side served.
    pub fn fold(
        &mut self,
        id: u64,
        ram_now: u64,
        baseline_p50: u64,
        baseline_p99: u64,
        candidate_p50: u64,
        candidate_p99: u64,
    )
        requires
            old(self)@.ok(),
        ensures
            final(self)@.ok(),
            final(self)@ == match place_of(old(self)@.running, id) {
                Some(i) => TrialsModel {
                    running: old(self)@.running.update(
                        i,
                        folded(
                            old(self)@.running[i],
                            ram_now,
                            (baseline_p50, baseline_p99),
                            (candidate_p50, candidate_p99),
                        ),
                    ),
                    ..old(self)@
                },
                None => old(self)@,
            },
    {
        proof {
            lemma_place_of(self@.running, id);
        }
        let ghost before = self@;
        if let Some(i) = self.experiment_index(id) {
            assert(before.running[i as int] == self.running@[i as int]@);
            self.running[i].fold(ram_now, baseline_p50, baseline_p99, candidate_p50, candidate_p99);
            assert(self@.running =~= before.running.update(
                i as int,
                folded(
                    before.running[i as int],
                    ram_now,
                    (baseline_p50, baseline_p99),
                    (candidate_p50, candidate_p99),
                ),
            ));
        }
    }

    /// What there is to say of experiments: of those running, or of the last that
    /// ended. `heads` is what the state machine of each says of itself.
    pub fn explain_experiment(&self, heads: &Vec<String>) -> (s: String)
        requires
            heads@.len() == told_of(self@),
        ensures
            told(self@, texts(heads@), s@),
    {
        if self.running.len() == 0 {
            let n: usize = self.finished.len();
            if n == 0 {
                return "no experiments\n".to_owned();
            }
            assert(self@.finished.last() == self.finished@[n - 1]@);
            assert(texts(heads@)[0] == heads@[0]@);
            return self.finished[n - 1].explain(heads[0].as_str());
        }
        let mut words: Vec<String> = Vec::new();
        let mut i: usize = 0;
        while i < self.running.len()
            invariant
                i <= self.running@.len(),
                heads@.len() == self.running@.len(),
                words@.len() == i,
                forall|k: int|
                    0 <= k < i ==> explains(
                        self@.running[k],
                        texts(heads@)[k],
                        #[trigger] texts(words@)[k],
                    ),
            decreases self.running@.len() - i,
        {
            assert(self@.running[i as int] == self.running@[i as int]@);
            assert(texts(heads@)[i as int] == heads@[i as int]@);
            let ghost held = words@;
            let e = self.running[i].explain(heads[i].as_str());
            words.push(e);
            assert(texts(words@) =~= texts(held).push(e@));
            assert forall|k: int| 0 <= k < i + 1 implies explains(
                self@.running[k],
                texts(heads@)[k],
                #[trigger] texts(words@)[k],
            ) by {
                if k < i {
                    assert(texts(words@)[k] == texts(held)[k]);
                }
            }
            i += 1;
        }
        assert(explained(self@.running, texts(heads@), texts(words@)));
        join(&words, "\n")
    }

    /// What running experiments are proving. None of it may be decided anew before
    /// they end.
    pub fn under_experiment(&self) -> (out: Vec<(String, String)>)
        ensures
            pairs_of(out@) == subjects(self@.running),
    {
        let mut out: Vec<(String, String)> = Vec::new();
        let mut i: usize = 0;
        while i < self.running.len()
            invariant
                i <= self.running@.len(),
                out@.len() == i,
                forall|k: int|
                    0 <= k < i ==> (#[trigger] out@[k]).0@
                        == self.running@[k].decision.optimization@ && out@[k].1@
                        == self.running@[k].decision.scope@,
            decreases self.running@.len() - i,
        {
            let d = &self.running[i].decision;
            out.push((d.optimization.clone(), d.scope.clone()));
            i += 1;
        }
        assert(pairs_of(out@) =~= subjects(self@.running));
        out
    }

    /// Which of a cycle's decisions is held back to be proved: the first that can
    /// be, and none while an experiment is running.
    pub fn held_back(&self, proposals: &Vec<Proposal>, ctx: &OptContext) -> (r: Option<usize>)
        ensures
            if self@.running.len() > 0 {
                r is None
            } else {
                match first_provable(proposals@, ctx@, 0) {
                    Some(i) => r matches Some(k) && k == i && k < proposals@.len(),
                    None => r is None,
                }
            },
    {
        if self.running.len() > 0 {
            return None;
        }
        let mut i: usize = 0;
        while i < proposals.len()
            invariant
                i <= proposals@.len(),
                first_provable(proposals@, ctx@, 0) == first_provable(proposals@, ctx@, i as int),
                self@.running.len() == 0,
            decreases proposals@.len() - i,
        {
            if is_shadowable(&proposals[i].0, ctx, proposals[i].1) {
                return Some(i);
            }
            i += 1;
        }
        None
    }

    /// Stop every running experiment, oldest first.
    pub fn abort_experiment(&mut self, why: &str) -> (out: Vec<Retiring>)
        requires
            old(self)@.ok(),
        ensures
            final(self)@.ok(),
            final(self)@ == (TrialsModel { running: Seq::empty(), ..old(self)@ }),
            out@.len() == old(self)@.running.len(),
            forall|i: int|
                0 <= i < out@.len() ==> (#[trigger] out@[i])@ == leaving(
                    old(self)@.hidden,
                    (LiveModel { phase: Phase::Reverted, ..old(self)@.running[i] }),
                    why@,
                    false,
                ),
    {
        let ghost all = self@.running;
        let mut out: Vec<Retiring> = Vec::new();
        assert(all.skip(0) =~= all);
        while self.running.len() > 0
            invariant
                self@.ok(),
                out@.len() <= all.len(),
                all == old(self)@.running,
                self@ == (TrialsModel { running: all.skip(out@.len() as int), ..old(self)@ }),
                forall|i: int|
                    0 <= i < out@.len() ==> (#[trigger] out@[i])@ == leaving(
                        old(self)@.hidden,
                        (LiveModel { phase: Phase::Reverted, ..all[i] }),
                        why@,
                        false,
                    ),
            decreases self.running@.len(),
        {
            let ghost before = self@;
            let ghost n = out@.len() as int;
            assert(before.running.len() == self.running@.len());
            assert(before.running[0] == self.running@[0]@);
            assert(before.running[0] == all[n]);
            self.running[0].phase = Phase::Reverted;
            let ghost l = LiveModel { phase: Phase::Reverted, ..all[n] };
            assert(self@.running =~= before.running.update(0, l));
            assert(self@.running.remove(0) =~= all.skip(n + 1));
            let r = self.take_out(0, why, false);
            out.push(r);
            assert(self.running@.len() == self@.running.len());
        }
        assert(self.running@.len() == self@.running.len());
        assert(self@.running =~= Seq::empty());
        out
    }
}

// -- what becomes of a query and of an experiment ----------------------------------

proof fn lemma_evidenced(s: Seq<LiveModel>, collection: Seq<char>, from: int)
    requires
        0 <= from <= s.len(),
    ensures
        match evidenced(s, collection, from) {
            None => forall|i: int|
                from <= i < s.len() ==> !((#[trigger] s[i]).phase is Shadow || s[i].phase is Canary)
                    || !(s[i].collection.len() == 0 || s[i].collection == collection),
            Some(i) => from <= i < s.len() && (s[i].phase is Shadow || s[i].phase is Canary) && (
            s[i].collection.len() == 0 || s[i].collection == collection),
        },
    decreases s.len() - from,
{
    if from < s.len() && !(measuring(s[from].phase) && covers(s[from], collection)) {
        lemma_evidenced(s, collection, from + 1);
    }
}

/// A query goes the way of the experiment it is evidence for: one that is measuring and
/// takes queries of its collection, or of every one. In the shadow phase it is answered
/// both ways, in a canary phase one way, by the candidate for its share of queries; and
/// only then is the candidate shown. Where there is no such experiment it is answered as
/// ever.
pub proof fn a_query_goes_the_way_of_its_experiment(m: TrialsModel, collection: Seq<char>)
    ensures
        ({
            let (n, way) = routed(m, collection);
            let takes = |l: LiveModel|
                (l.phase is Shadow || l.phase is Canary) && (l.collection.len() == 0 || l.collection
                    == collection);
            &&& way is Plain <==> forall|i: int| 0 <= i < m.running.len() ==> !takes(#[trigger] m.running[i])
            &&& way is Plain ==> n == m
            &&& way matches Routing::Shadow(id) ==> n == (TrialsModel { under_test: Some(id), ..m })
                && exists|i: int|
                0 <= i < m.running.len() && takes(#[trigger] m.running[i]) && m.running[i].id == id
                    && m.running[i].phase is Shadow
            &&& way matches Routing::Canary { id, candidate } ==> {
                &&& n.candidate_visible == candidate
                &&& n.under_test == Some(id)
                &&& n.hidden == m.hidden && n.finished == m.finished && n.recording == m.recording
                &&& exists|i: int|
                    0 <= i < m.running.len() && takes(#[trigger] m.running[i]) && m.running[i].id == id
                        && (m.running[i].phase matches Phase::Canary(percent) && (candidate <==> (
                    m.running[i].routed + 1) * percent / 100 > m.running[i].routed * percent / 100))
                        && n.running == m.running.update(
                        i,
                        LiveModel { routed: ticked(m.running[i].routed), ..m.running[i] },
                    )
            }
        }),
{
    lemma_evidenced(m.running, collection, 0);
    if let Some(i) = evidenced(m.running, collection, 0) {
        assert(m.running[i] == m.running[i]);
    }
}

/// A query answered both ways is held against the candidate only where it did not answer
/// as the baseline did: with the same rows it is no divergence and no failure, and one
/// query more is served by each side. What the baseline could not answer shows nothing.
pub proof fn agreement_is_not_held_against_a_candidate(
    l: LiveModel,
    base: Rows,
    cand: Rows,
    nanos: (u64, u64),
    explain: Seq<char>,
    failed: Error,
    other: Result<Rows, Error>,
)
    requires
        rows_model(cand@) == rows_model(base@),
    ensures
        ({
            let n = compared(l, Ok(base), Ok(cand), nanos, explain);
            &&& n.shadow.divergences == l.shadow.divergences
            &&& n.shadow.first_divergence == l.shadow.first_divergence
            &&& n.candidate_errors == l.candidate_errors && n.baseline_errors == l.baseline_errors
            &&& l.candidate_served < u64::MAX ==> n.candidate_served == l.candidate_served + 1
            &&& l.baseline_served < u64::MAX ==> n.baseline_served == l.baseline_served + 1
            &&& n.shadow.baseline_samples == l.shadow.baseline_samples.push(nanos.0)
            &&& n.shadow.candidate_samples == l.shadow.candidate_samples.push(nanos.1)
        }),
        compared(l, Err(failed), other, nanos, explain).shadow == l.shadow,
{
}

/// A query served by one side counts for that side alone, and as a failure of it where it
/// failed.
pub proof fn a_served_query_counts_for_its_side(l: LiveModel, ok: bool)
    ensures
        ({
            let c = served(l, true, ok);
            &&& l.candidate_served < u64::MAX ==> c.candidate_served == l.candidate_served + 1
            &&& ok ==> c.candidate_errors == l.candidate_errors
            &&& !ok && l.candidate_errors < u64::MAX ==> c.candidate_errors == l.candidate_errors + 1
            &&& c.baseline_served == l.baseline_served && c.baseline_errors == l.baseline_errors
        }),
        ({
            let b = served(l, false, ok);
            &&& l.baseline_served < u64::MAX ==> b.baseline_served == l.baseline_served + 1
            &&& ok ==> b.baseline_errors == l.baseline_errors
            &&& !ok && l.baseline_errors < u64::MAX ==> b.baseline_errors == l.baseline_errors + 1
            &&& b.candidate_served == l.candidate_served && b.candidate_errors == l.candidate_errors
        }),
{
}

proof fn lemma_first_unshadowable(s: Seq<ActionModel>)
    ensures
        first_unshadowable(s) is None <==> forall|i: int|
            #![trigger s[i]]
            0 <= i < s.len() ==> s[i] is CreateIndex || s[i] == ActionModel::SetColumnStore(true)
                || s[i] == ActionModel::SetDirectLookup(true),
    decreases s.len(),
{
    if s.len() > 0 {
        let rest = s.skip(1);
        lemma_first_unshadowable(rest);
        assert forall|i: int| 0 <= i < rest.len() implies #[trigger] rest[i] == s[i + 1] by {}
        assert forall|i: int| 0 < i < s.len() implies #[trigger] s[i] == rest[i - 1] by {}
    }
}

proof fn lemma_first_clash(s: Seq<LiveModel>, collection: Seq<char>)
    ensures
        match first_clash(s, collection) {
            None => forall|i: int|
                0 <= i < s.len() ==> !overlapping((#[trigger] s[i]).collection, collection),
            Some(l) => s.contains(l) && overlapping(l.collection, collection),
        },
    decreases s.len(),
{
    if s.len() > 0 {
        let rest = s.skip(1);
        lemma_first_clash(rest, collection);
        assert forall|i: int| 0 < i < s.len() implies #[trigger] s[i] == rest[i - 1] by {}
        assert(s[0] == s[0]);
        if let Some(l) = first_clash(rest, collection) {
            let i = choose|i: int| 0 <= i < rest.len() && rest[i] == l;
            assert(s[i + 1] == l);
        }
    }
}

/// What can be experimented on: switching an optimization that there is on, where that
/// changes something, everything it changes can be held beside what there is, and no
/// running experiment has queries in common with it. Nothing else is refused.
pub proof fn only_a_comparable_change_is_experimented_on(
    m: TrialsModel,
    d: DecisionModel,
    c: ContextModel,
    kind: Option<i64>,
    names: Seq<Seq<char>>,
)
    ensures
        refusal(m, d, c, kind, names) is None <==> {
            &&& d.action is Enable
            &&& registered(d.optimization) matches Some(b) && {
                let changes = enabling(b, c, d.scope, kind).apply;
                &&& changes.len() > 0
                &&& forall|i: int|
                    #![trigger changes[i]]
                    0 <= i < changes.len() ==> changes[i] is CreateIndex || changes[i]
                        == ActionModel::SetColumnStore(true) || changes[i]
                        == ActionModel::SetDirectLookup(true)
            }
            &&& forall|i: int|
                0 <= i < m.running.len() ==> !overlapping(
                    (#[trigger] m.running[i]).collection,
                    evidence_from(d.scope, names),
                )
        },
        provable(d, c, kind) <==> d.action is Enable && (registered(d.optimization) matches Some(b) && {
            let changes = enabling(b, c, d.scope, kind).apply;
            changes.len() > 0 && forall|i: int|
                #![trigger changes[i]]
                0 <= i < changes.len() ==> changes[i] is CreateIndex || changes[i]
                    == ActionModel::SetColumnStore(true) || changes[i]
                    == ActionModel::SetDirectLookup(true)
        }),
{
    if let Some(b) = registered(d.optimization) {
        lemma_first_unshadowable(enabling(b, c, d.scope, kind).apply);
    }
    lemma_first_clash(m.running, evidence_from(d.scope, names));
}

/// The queries that are evidence for a change are those of the collection its scope begins
/// with, and every query where that is the name of none.
pub proof fn evidence_is_of_the_collection_a_scope_names(
    collection: Seq<char>,
    field: Seq<char>,
    names: Seq<Seq<char>>,
)
    requires
        !collection.contains('.'),
    ensures
        names.contains(collection) ==> evidence_from(collection, names) == collection
            && evidence_from(collection.push('.') + field, names) == collection,
        !names.contains(collection) ==> evidence_from(collection, names).len() == 0
            && evidence_from(collection.push('.') + field, names).len() == 0,
{
    crate::names::lemma_one_piece(collection, '.');
    lemma_first_piece(collection, field);
}

proof fn lemma_first_piece(a: Seq<char>, b: Seq<char>)
    requires
        !a.contains('.'),
    ensures
        pieces(a.push('.') + b, '.')[0] == a,
        pieces(a.push('.') + b, '.').len() >= 2,
    decreases b.len(),
{
    if b.len() == 0 {
        assert(a.push('.') + b =~= a.push('.'));
        assert(a.push('.').drop_last() =~= a);
        crate::names::lemma_one_piece(a, '.');
    } else {
        lemma_first_piece(a, b.drop_last());
        let s = a.push('.') + b;
        assert(s.drop_last() =~= a.push('.') + b.drop_last());
    }
}

/// How an experiment moves. It is built hidden, with what there was before it noted, and
/// what is built meanwhile is its own. Each measuring phase starts its counts anew. One
/// that is promoted or reverted runs no longer; what a reverted one built, if it built
/// anything, is to be undone by switching off what it switched on, and what a promoted
/// one built is kept.
pub proof fn an_experiment_moves_as_its_phase_says(
    m: TrialsModel,
    i: int,
    p: Phase,
    ram: u64,
    outcome: Seq<char>,
)
    requires
        0 <= i < m.running.len(),
    ensures
        ({
            let (n, step) = moved_to(m, i, p, ram, outcome);
            let was = m.running[i];
            &&& n.hidden == m.hidden && n.finished == m.finished && n.next_id == m.next_id
            &&& p is Building ==> {
                &&& n.recording == Some(was.id)
                &&& !n.candidate_visible
                &&& n.running.len() == m.running.len() && n.running[i].ram_before == ram
                &&& step matches StepModel::Build(d) && d.optimization == was.decision.optimization
                    && d.scope == was.decision.scope && d.action == was.decision.action
            }
            &&& p is Shadow || p is Canary ==> {
                &&& step is Stay
                &&& n.running.len() == m.running.len()
                &&& n.running[i].phase == p && n.running[i].shadow == was.shadow
                &&& n.running[i].baseline_served == 0 && n.running[i].candidate_served == 0
                &&& n.running[i].baseline_errors == 0 && n.running[i].candidate_errors == 0
            }
            &&& p is Promoted ==> {
                &&& n.running == m.running.remove(i)
                &&& step matches StepModel::Retire(r) && r.promoted && r.undo is None && r.live.id
                    == was.id && r.live.phase is Promoted
            }
            &&& p is Reverted ==> {
                &&& n.running == m.running.remove(i)
                &&& step matches StepModel::Retire(r) && !r.promoted && r.live.id == was.id
                    && r.why == outcome && (r.undo is Some <==> !mask_empty_for(m.hidden, was.id)) && (
                r.undo matches Some(d) ==> d.action is Disable && d.optimization
                    == was.decision.optimization && d.scope == was.decision.scope)
            }
        }),
{
}

/// Once an experiment has ended nothing is hidden on its account and no candidate is
/// shown, whoever else's stays hidden; and it is the last of those that ended.
pub proof fn an_ended_experiment_hides_nothing(m: TrialsModel, l: LiveModel)
    ensures
        ({
            let n = ended(m, l);
            &&& n.finished == m.finished.push(l)
            &&& n.running == m.running
            &&& mask_empty_for(n.hidden, l.id)
            &&& n.hidden.indexes == m.hidden.indexes.filter(|e: HiddenIndex| e.0 != l.id)
            &&& n.hidden.column_store == m.hidden.column_store.filter(
                |e: (u64, Seq<char>)| e.0 != l.id,
            )
            &&& n.hidden.direct == m.hidden.direct.filter(|e: (u64, Seq<char>)| e.0 != l.id)
            &&& revealed(n) is None
        }),
{
    crate::experiment::a_forgotten_experiment_masks_nothing(m.hidden, l.id);
    crate::experiment::a_mask_comes_apart_by_experiment(m.hidden, l.id);
}

/// A build is given up exactly where some of it was refused, or where nothing of it can
/// be held beside what there is.
pub proof fn a_build_is_given_up_where_nothing_came_of_it(
    m: Mask,
    id: u64,
    all_applied: bool,
    rejected: Seq<(String, String)>,
)
    ensures
        build_fault(m, id, all_applied, rejected) is None <==> all_applied && !({
            &&& forall|k: int| 0 <= k < m.indexes.len() ==> (#[trigger] m.indexes[k]).0 != id
            &&& forall|k: int| 0 <= k < m.column_store.len() ==> (#[trigger] m.column_store[k]).0 != id
            &&& forall|k: int| 0 <= k < m.direct.len() ==> (#[trigger] m.direct[k]).0 != id
        }),
{
}

/// Stopping an experiment that runs takes it out, reverted, and no other; stopping one
/// that does not run changes nothing.
pub proof fn stopping_an_experiment_takes_it_out(m: TrialsModel, id: u64, why: Seq<char>)
    requires
        m.ok(),
    ensures
        ({
            let (n, r) = aborted(m, id, why);
            &&& r is None <==> forall|i: int|
                0 <= i < m.running.len() ==> (#[trigger] m.running[i]).id != id
            &&& r is None ==> n == m
            &&& r matches Some(x) ==> {
                &&& x.live.id == id && x.live.phase is Reverted && !x.promoted && x.why == why
                &&& n.running == m.running.filter(|l: LiveModel| l.id != id)
                &&& n.hidden == m.hidden
            }
        }),
{
    lemma_place_of(m.running, id);
    if let Some(i) = place_of(m.running, id) {
        lemma_remove_is_filter(m.running, id, i);
    }
}

proof fn lemma_remove_is_filter(s: Seq<LiveModel>, id: u64, i: int)
    requires
        0 <= i < s.len(),
        s[i].id == id,
        in_order(s),
    ensures
        s.remove(i) == s.filter(|l: LiveModel| l.id != id),
    decreases s.len(),
{
    reveal(Seq::filter);
    let keep = |l: LiveModel| l.id != id;
    let rest = s.drop_last();
    let n = s.len() - 1;
    assert forall|a: int, b: int| 0 <= a < b < rest.len() implies (#[trigger] rest[a]).id < (
    #[trigger] rest[b]).id by {
        assert(rest[a] == s[a] && rest[b] == s[b]);
    }
    if i == n {
        assert forall|k: int| 0 <= k < rest.len() implies keep(#[trigger] rest[k]) by {
            assert(s[k].id < s[n].id);
        }
        lemma_all_kept(rest, keep);
        assert(s.remove(i) =~= rest);
    } else {
        assert(s[i].id < s[n].id);
        lemma_remove_is_filter(rest, id, i);
        assert(s.remove(i) =~= rest.remove(i).push(s[n]));
    }
}

proof fn lemma_all_kept(s: Seq<LiveModel>, keep: spec_fn(LiveModel) -> bool)
    requires
        forall|k: int| 0 <= k < s.len() ==> keep(#[trigger] s[k]),
    ensures
        s.filter(keep) == s,
    decreases s.len(),
{
    reveal(Seq::filter);
    if s.len() > 0 {
        let rest = s.drop_last();
        assert forall|k: int| 0 <= k < rest.len() implies keep(#[trigger] rest[k]) by {
            assert(rest[k] == s[k]);
        }
        lemma_all_kept(rest, keep);
        assert(keep(s[s.len() - 1]));
        assert(rest.push(s.last()) =~= s);
    }
}

/// What is built is hidden only while an experiment's candidate is being built.
pub proof fn only_a_candidate_is_hidden(m: TrialsModel, a: ActionModel)
    ensures
        m.recording is None ==> hidden_after(m, a) == m.hidden,
{
}

/// Experiments are counted by the phase they ended in.
pub proof fn experiments_are_counted_by_phase(s: Seq<LiveModel>, p: Phase)
    ensures
        count_in(s, p) == s.filter(|l: LiveModel| l.phase == p).len(),
    decreases s.len(),
{
    reveal(Seq::filter);
    if s.len() > 0 {
        experiments_are_counted_by_phase(s.drop_last(), p);
    }
}

/// The decision that is held back for an experiment is the first that can be proved.
pub proof fn the_first_provable_decision_is_held_back(s: Seq<Proposal>, c: ContextModel, from: int)
    requires
        0 <= from <= s.len(),
    ensures
        match first_provable(s, c, from) {
            None => forall|i: int|
                from <= i < s.len() ==> !provable((#[trigger] s[i]).0@, c, s[i].1),
            Some(i) => from <= i < s.len() && provable(s[i].0@, c, s[i].1) && forall|k: int|
                from <= k < i ==> !provable((#[trigger] s[k]).0@, c, s[k].1),
        },
    decreases s.len() - from,
{
    if from < s.len() && !provable(s[from].0@, c, s[from].1) {
        the_first_provable_decision_is_held_back(s, c, from + 1);
    }
}

/// A query that is over leaves no candidate visible to the next, and changes no experiment
/// but the one it was evidence for.
pub proof fn a_query_that_is_over_leaves_nothing_visible(
    m: TrialsModel,
    i: int,
    l: LiveModel,
    j: int,
)
    requires
        0 <= i < m.running.len(),
        0 <= j < m.running.len(),
    ensures
        revealed(rested(m, i, l)) is None,
        rested(m, i, l).under_test is None,
        rested(m, i, l).running.len() == m.running.len(),
        rested(m, i, l).running[j] == if j == i {
            l
        } else {
            m.running[j]
        },
        rested(m, i, l).hidden == m.hidden,
        rested(m, i, l).finished == m.finished,
{
}

} // verus!
