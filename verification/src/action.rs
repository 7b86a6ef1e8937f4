//! Physical changes, and decisions to make them.

use vstd::prelude::*;
use vstd::string::*;
use crate::text::{dec_text, push_dec, str_eq};

verus! {

/// The structure behind an index.
#[derive(Clone, Copy, Debug, PartialEq, Eq, Structural)]
pub enum IndexKind {
    Hash,
    BTree,
    Bitmap,
}

/// How a kind is written.
pub open spec fn kind_text(k: IndexKind) -> Seq<char> {
    match k {
        IndexKind::Hash => "hash"@,
        IndexKind::BTree => "btree"@,
        IndexKind::Bitmap => "bitmap"@,
    }
}

impl IndexKind {
    pub fn as_str(&self) -> (s: &'static str)
        ensures
            s@ == kind_text(*self),
    {
        match self {
            IndexKind::Hash => "hash",
            IndexKind::BTree => "btree",
            IndexKind::Bitmap => "bitmap",
        }
    }

    /// The kind a text names, if it names one.
    pub fn parse(s: &str) -> (r: Option<IndexKind>)
        ensures
            r == kind_named(s@),
    {
        if str_eq(s, "hash") {
            Some(IndexKind::Hash)
        } else if str_eq(s, "btree") {
            Some(IndexKind::BTree)
        } else if str_eq(s, "bitmap") {
            Some(IndexKind::Bitmap)
        } else {
            None
        }
    }

    /// Whether values can be walked in order.
    pub fn supports_range(&self) -> (r: bool)
        ensures
            r == ordered_kind(*self),
    {
        match self {
            IndexKind::BTree => true,
            _ => false,
        }
    }
}

/// Whether values can be walked in order.
pub open spec fn ordered_kind(k: IndexKind) -> bool {
    k == IndexKind::BTree
}

pub open spec fn kind_named(s: Seq<char>) -> Option<IndexKind> {
    if s == "hash"@ {
        Some(IndexKind::Hash)
    } else if s == "btree"@ {
        Some(IndexKind::BTree)
    } else if s == "bitmap"@ {
        Some(IndexKind::Bitmap)
    } else {
        None
    }
}

/// A kind is named by what it is written as.
pub proof fn kinds_round_trip(k: IndexKind)
    ensures
        kind_named(kind_text(k)) == Some(k),
{
    reveal_strlit("hash");
    reveal_strlit("btree");
    reveal_strlit("bitmap");
    assert("hash"@.len() == 4);
    assert("btree"@.len() == 5);
    assert("bitmap"@.len() == 6);
}

/// One physical change.
#[derive(Debug, PartialEq, Eq)]
pub enum Action {
    CreateIndex { collection: String, field: String, kind: IndexKind },
    DropIndex { collection: String, field: String, kind: IndexKind },
    SetBufferPoolPages(usize),
    SetPlanCacheEntries(usize),
    SetResultCacheEntries(usize),
    SetDirectLookup(bool),
    FreezeSchema { collection: String },
    SetClusterField { collection: String, field: String },
    ClearClusterField { collection: String },
    SetDeltaEncoding(bool),
    SetThreadPerCore(bool),
    SetColumnStore(bool),
    SetMaterializedViews(bool),
    SetRecordCompression(bool),
    SetPrefetch(bool),
    SetJoinOrder(bool),
    SetDataPartitioning(bool),
}

/// What an [`Action`] changes.
pub enum ActionModel {
    CreateIndex { collection: Seq<char>, field: Seq<char>, kind: IndexKind },
    DropIndex { collection: Seq<char>, field: Seq<char>, kind: IndexKind },
    SetBufferPoolPages(usize),
    SetPlanCacheEntries(usize),
    SetResultCacheEntries(usize),
    SetDirectLookup(bool),
    FreezeSchema { collection: Seq<char> },
    SetClusterField { collection: Seq<char>, field: Seq<char> },
    ClearClusterField { collection: Seq<char> },
    SetDeltaEncoding(bool),
    SetThreadPerCore(bool),
    SetColumnStore(bool),
    SetMaterializedViews(bool),
    SetRecordCompression(bool),
    SetPrefetch(bool),
    SetJoinOrder(bool),
    SetDataPartitioning(bool),
}

impl View for Action {
    type V = ActionModel;

    open spec fn view(&self) -> ActionModel {
        match self {
            Action::CreateIndex { collection, field, kind } => ActionModel::CreateIndex {
                collection: collection@,
                field: field@,
                kind: *kind,
            },
            Action::DropIndex { collection, field, kind } => ActionModel::DropIndex {
                collection: collection@,
                field: field@,
                kind: *kind,
            },
            Action::SetBufferPoolPages(n) => ActionModel::SetBufferPoolPages(*n),
            Action::SetPlanCacheEntries(n) => ActionModel::SetPlanCacheEntries(*n),
            Action::SetResultCacheEntries(n) => ActionModel::SetResultCacheEntries(*n),
            Action::SetDirectLookup(on) => ActionModel::SetDirectLookup(*on),
            Action::FreezeSchema { collection } => ActionModel::FreezeSchema {
                collection: collection@,
            },
            Action::SetClusterField { collection, field } => ActionModel::SetClusterField {
                collection: collection@,
                field: field@,
            },
            Action::ClearClusterField { collection } => ActionModel::ClearClusterField {
                collection: collection@,
            },
            Action::SetDeltaEncoding(on) => ActionModel::SetDeltaEncoding(*on),
            Action::SetThreadPerCore(on) => ActionModel::SetThreadPerCore(*on),
            Action::SetColumnStore(on) => ActionModel::SetColumnStore(*on),
            Action::SetMaterializedViews(on) => ActionModel::SetMaterializedViews(*on),
            Action::SetRecordCompression(on) => ActionModel::SetRecordCompression(*on),
            Action::SetPrefetch(on) => ActionModel::SetPrefetch(*on),
            Action::SetJoinOrder(on) => ActionModel::SetJoinOrder(*on),
            Action::SetDataPartitioning(on) => ActionModel::SetDataPartitioning(*on),
        }
    }
}

/// Whether a change leaves an old path to compare a new one against.
pub open spec fn shadowable(a: ActionModel) -> bool {
    match a {
        ActionModel::CreateIndex { .. } => true,
        ActionModel::SetColumnStore(on) => on,
        ActionModel::SetDirectLookup(on) => on,
        _ => false,
    }
}

/// What each action changes.
pub open spec fn action_models(s: Seq<Action>) -> Seq<ActionModel> {
    s.map_values(|a: Action| a@)
}

/// Whether something is switched on or off, in words.
pub open spec fn switch_text(on: bool) -> Seq<char> {
    if on {
        "enable "@
    } else {
        "disable "@
    }
}

/// How an action is described.
pub open spec fn action_text(a: ActionModel) -> Seq<char> {
    match a {
        ActionModel::CreateIndex { collection, field, kind } => "create "@ + kind_text(kind)
            + " index on "@ + collection + "."@ + field,
        ActionModel::DropIndex { collection, field, kind } => "drop "@ + kind_text(kind)
            + " index on "@ + collection + "."@ + field,
        ActionModel::SetBufferPoolPages(n) => "set buffer pool to "@ + dec_text(n as nat) + " pages"@,
        ActionModel::SetPlanCacheEntries(n) => "set plan cache to "@ + dec_text(n as nat) + " entries"@,
        ActionModel::SetResultCacheEntries(n) => "set result cache to "@ + dec_text(n as nat) + " entries"@,
        ActionModel::FreezeSchema { collection } => "freeze the schema of "@ + collection,
        ActionModel::SetClusterField { collection, field } => "cluster "@ + collection + " by "@
            + field,
        ActionModel::ClearClusterField { collection } => "stop clustering "@ + collection,
        ActionModel::SetDirectLookup(on) => switch_text(on) + "direct lookup"@,
        ActionModel::SetDeltaEncoding(on) => switch_text(on) + "delta encoding"@,
        ActionModel::SetThreadPerCore(on) => switch_text(on) + "thread per core"@,
        ActionModel::SetColumnStore(on) => switch_text(on) + "column store"@,
        ActionModel::SetMaterializedViews(on) => switch_text(on) + "materialized views"@,
        ActionModel::SetRecordCompression(on) => switch_text(on) + "record compression"@,
        ActionModel::SetPrefetch(on) => switch_text(on) + "prefetch"@,
        ActionModel::SetJoinOrder(on) => switch_text(on) + "join order"@,
        ActionModel::SetDataPartitioning(on) => switch_text(on) + "data partitioning"@,
    }
}

/// How actions are described together.
pub open spec fn actions_text(s: Seq<ActionModel>) -> Seq<char>
    decreases s.len(),
{
    if s.len() == 0 {
        ""@
    } else if s.len() == 1 {
        action_text(s[0])
    } else {
        actions_text(s.drop_last()) + "; "@ + action_text(s.last())
    }
}

fn switched(on: bool, what: &str) -> (s: String)
    ensures
        s@ == switch_text(on) + what@,
{
    let mut s = if on { "enable ".to_owned() } else { "disable ".to_owned() };
    s.append(what);
    s
}

fn counted(head: &str, n: usize, tail: &str) -> (s: String)
    ensures
        s@ == head@ + dec_text(n as nat) + tail@,
{
    let mut s = head.to_owned();
    push_dec(&mut s, n as u64);
    s.append(tail);
    s
}

fn index_words(head: &str, kind: &IndexKind, collection: &str, field: &str) -> (s: String)
    ensures
        s@ == head@ + kind_text(*kind) + " index on "@ + collection@ + "."@ + field@,
{
    let mut s = head.to_owned();
    s.append(kind.as_str());
    s.append(" index on ");
    s.append(collection);
    s.append(".");
    s.append(field);
    s
}

impl Action {
    /// Whether the change leaves an old path to compare a new one against: whether
    /// what it builds stands beside what is there.
    pub fn is_shadowable(&self) -> (r: bool)
        ensures
            r == shadowable(self@),
    {
        match self {
            Action::CreateIndex { .. } => true,
            Action::SetColumnStore(on) => *on,
            Action::SetDirectLookup(on) => *on,
            _ => false,
        }
    }

    /// What the action does, in words.
    pub fn describe(&self) -> (s: String)
        ensures
            s@ == action_text(self@),
    {
        match self {
            Action::CreateIndex { collection, field, kind } => index_words(
                "create ",
                kind,
                collection.as_str(),
                field.as_str(),
            ),
            Action::DropIndex { collection, field, kind } => index_words(
                "drop ",
                kind,
                collection.as_str(),
                field.as_str(),
            ),
            Action::SetBufferPoolPages(n) => counted("set buffer pool to ", *n, " pages"),
            Action::SetPlanCacheEntries(n) => counted("set plan cache to ", *n, " entries"),
            Action::SetResultCacheEntries(n) => counted("set result cache to ", *n, " entries"),
            Action::FreezeSchema { collection } => {
                let mut s = "freeze the schema of ".to_owned();
                s.append(collection.as_str());
                s
            },
            Action::SetClusterField { collection, field } => {
                let mut s = "cluster ".to_owned();
                s.append(collection.as_str());
                s.append(" by ");
                s.append(field.as_str());
                s
            },
            Action::ClearClusterField { collection } => {
                let mut s = "stop clustering ".to_owned();
                s.append(collection.as_str());
                s
            },
            Action::SetDirectLookup(on) => switched(*on, "direct lookup"),
            Action::SetDeltaEncoding(on) => switched(*on, "delta encoding"),
            Action::SetThreadPerCore(on) => switched(*on, "thread per core"),
            Action::SetColumnStore(on) => switched(*on, "column store"),
            Action::SetMaterializedViews(on) => switched(*on, "materialized views"),
            Action::SetRecordCompression(on) => switched(*on, "record compression"),
            Action::SetPrefetch(on) => switched(*on, "prefetch"),
            Action::SetJoinOrder(on) => switched(*on, "join order"),
            Action::SetDataPartitioning(on) => switched(*on, "data partitioning"),
        }
    }
}

/// What actions do, in words.
pub fn describe_actions(actions: &Vec<Action>) -> (s: String)
    ensures
        s@ == actions_text(action_models(actions@)),
{
    let ghost all = action_models(actions@);
    let mut s = "".to_owned();
    let mut i: usize = 0;
    assert(all.take(0) =~= Seq::empty());
    while i < actions.len()
        invariant
            i <= actions@.len(),
            all == action_models(actions@),
            s@ == actions_text(all.take(i as int)),
        decreases actions.len() - i,
    {
        proof {
            assert(all.take(i + 1).drop_last() =~= all.take(i as int));
            assert(all.take(i + 1).last() == actions@[i as int]@);
        }
        if i == 0 {
            s = actions[i].describe();
        } else {
            s.append("; ");
            s.append(actions[i].describe().as_str());
        }
        i += 1;
    }
    assert(all.take(i as int) =~= all);
    s
}

#[derive(Clone, Copy, Debug, PartialEq, Eq, Structural)]
pub enum DecisionAction {
    Enable,
    Disable,
}

/// How a decision's direction is written.
pub open spec fn direction_text(a: DecisionAction) -> Seq<char> {
    match a {
        DecisionAction::Enable => "enable"@,
        DecisionAction::Disable => "disable"@,
    }
}

impl DecisionAction {
    pub fn as_str(&self) -> (s: &'static str)
        ensures
            s@ == direction_text(*self),
    {
        match self {
            DecisionAction::Enable => "enable",
            DecisionAction::Disable => "disable",
        }
    }
}

/// A decision to switch an optimization on or off for a scope.
#[derive(Debug, PartialEq, Eq)]
pub struct Decision {
    pub optimization: String,
    pub scope: String,
    pub action: DecisionAction,
    pub trigger: String,
}

/// What a [`Decision`] says.
pub struct DecisionModel {
    pub optimization: Seq<char>,
    pub scope: Seq<char>,
    pub action: DecisionAction,
    pub trigger: Seq<char>,
}

impl View for Decision {
    type V = DecisionModel;

    open spec fn view(&self) -> DecisionModel {
        DecisionModel {
            optimization: self.optimization@,
            scope: self.scope@,
            action: self.action,
            trigger: self.trigger@,
        }
    }
}

impl Decision {
    pub fn dup(&self) -> (d: Decision)
        ensures
            d@ == self@,
    {
        Decision {
            optimization: self.optimization.clone(),
            scope: self.scope.clone(),
            action: self.action,
            trigger: self.trigger.clone(),
        }
    }
}

/// Where an experiment stands.
#[derive(Clone, Copy, Debug, PartialEq, Eq, Structural)]
pub enum Phase {
    Proposed,
    Building,
    Shadow,
    /// This percentage of queries is served by the candidate.
    Canary(u8),
    Promoted,
    Reverted,
}

/// Whether queries are evidence in a phase.
pub open spec fn measuring(p: Phase) -> bool {
    p is Shadow || p is Canary
}

impl Phase {
    pub fn is_measuring(&self) -> (r: bool)
        ensures
            r == measuring(*self),
    {
        match self {
            Phase::Shadow => true,
            Phase::Canary(_) => true,
            _ => false,
        }
    }
}

/// A change can be tried beside what there is where it builds something new: an index, or a
/// structure that is switched on. What takes something away, or resizes it, leaves nothing
/// to compare with.
pub proof fn only_what_is_built_beside_can_be_compared(a: ActionModel)
    ensures
        shadowable(a) <==> a is CreateIndex || a == ActionModel::SetColumnStore(true) || a
            == ActionModel::SetDirectLookup(true),
{
}

/// Only a tree keeps values in order.
pub proof fn only_a_tree_is_ordered(k: IndexKind)
    ensures
        ordered_kind(k) <==> !(k is Hash) && !(k is Bitmap),
{
}

/// Queries are evidence while a candidate is compared, by shadow or by canary: not before
/// it is built, and not once it is decided.
pub proof fn evidence_is_gathered_between_building_and_deciding(p: Phase)
    ensures
        measuring(p) <==> !(p is Proposed) && !(p is Building) && !(p is Promoted) && !(
        p is Reverted),
{
}

/// Actions described together are each described, in their order, one after another.
pub proof fn each_action_is_described(s: Seq<ActionModel>, t: Seq<ActionModel>)
    requires
        s.len() > 0,
        t.len() > 0,
    ensures
        actions_text(s + t) == actions_text(s) + "; "@ + actions_text(t),
    decreases t.len(),
{
    let all = s + t;
    assert(all.drop_last() =~= s + t.drop_last());
    assert(all.last() == t.last());
    if t.len() == 1 {
        assert(s + t.drop_last() =~= s);
    } else {
        each_action_is_described(s, t.drop_last());
        assert(actions_text(all) =~= actions_text(s) + "; "@ + actions_text(t));
    }
}

} // verus!
