//! Logical plans: what a query asks for.

use vstd::prelude::*;
use crate::expr::{Expr, ExprModel};
use crate::text::{dup_strings, str_eq, texts};

verus! {

#[derive(Clone, Copy, Debug, PartialEq, Eq, Structural)]
pub enum AggKind {
    Count,
    Sum,
    Avg,
    Min,
    Max,
}

/// One aggregate: what is computed, over which field, under which name.
#[derive(Debug, PartialEq, Eq)]
pub struct Agg {
    pub kind: AggKind,
    pub field: Option<String>,
    pub output: String,
}

/// What an [`Agg`] asks for.
pub struct AggModel {
    pub kind: AggKind,
    pub field: Option<Seq<char>>,
    pub output: Seq<char>,
}

impl View for Agg {
    type V = AggModel;

    open spec fn view(&self) -> AggModel {
        AggModel {
            kind: self.kind,
            field: match self.field {
                Some(f) => Some(f@),
                None => None,
            },
            output: self.output@,
        }
    }
}

/// What each aggregate asks for.
pub open spec fn agg_models(aggs: Seq<Agg>) -> Seq<AggModel> {
    aggs.map_values(|a: Agg| a@)
}

impl Agg {
    /// Count rows.
    pub fn count(output: &str) -> (a: Agg)
        ensures
            a@ == (AggModel { kind: AggKind::Count, field: None, output: output@ }),
    {
        Agg { kind: AggKind::Count, field: None, output: output.to_owned() }
    }

    /// Aggregate a field.
    pub fn over(kind: AggKind, field: &str, output: &str) -> (a: Agg)
        ensures
            a@ == (AggModel { kind, field: Some(field@), output: output@ }),
    {
        Agg { kind, field: Some(field.to_owned()), output: output.to_owned() }
    }

    pub fn dup(&self) -> (a: Agg)
        ensures
            a@ == self@,
    {
        let field = match &self.field {
            Some(f) => Some(f.clone()),
            None => None,
        };
        Agg { kind: self.kind, field, output: self.output.clone() }
    }

    pub fn same(&self, other: &Agg) -> (r: bool)
        ensures
            r == (self@ == other@),
    {
        let fields = match (&self.field, &other.field) {
            (Some(a), Some(b)) => str_eq(a.as_str(), b.as_str()),
            (None, None) => true,
            _ => false,
        };
        self.kind == other.kind && fields && str_eq(self.output.as_str(), other.output.as_str())
    }
}

pub fn dup_aggs(aggs: &Vec<Agg>) -> (out: Vec<Agg>)
    ensures
        agg_models(out@) == agg_models(aggs@),
{
    let mut out: Vec<Agg> = Vec::new();
    let mut i: usize = 0;
    while i < aggs.len()
        invariant
            i <= aggs.len(),
            out@.len() == i,
            forall|k: int| 0 <= k < i ==> (#[trigger] out@[k])@ == aggs@[k]@,
        decreases aggs.len() - i,
    {
        out.push(aggs[i].dup());
        i += 1;
    }
    assert(agg_models(out@) =~= agg_models(aggs@));
    out
}

pub fn aggs_same(a: &Vec<Agg>, b: &Vec<Agg>) -> (r: bool)
    ensures
        r == (agg_models(a@) == agg_models(b@)),
{
    if a.len() != b.len() {
        assert(agg_models(a@).len() != agg_models(b@).len());
        return false;
    }
    let mut i: usize = 0;
    while i < a.len()
        invariant
            i <= a.len(),
            a@.len() == b@.len(),
            forall|k: int| 0 <= k < i ==> (#[trigger] a@[k])@ == b@[k]@,
        decreases a.len() - i,
    {
        if !a[i].same(&b[i]) {
            assert(agg_models(a@)[i as int] != agg_models(b@)[i as int]);
            return false;
        }
        i += 1;
    }
    assert(agg_models(a@) =~= agg_models(b@));
    true
}

/// One operator of a logical plan and, through its inputs, the whole plan.
#[allow(inconsistent_fields)]
#[derive(Debug, PartialEq, Eq)]
pub enum LogicalOp {
    Scan { collection: String },
    GetById { collection: String, id: u64 },
    GetByIds { collection: String, ids: Vec<u64> },
    Filter { input: Box<LogicalOp>, predicate: Expr },
    Project { input: Box<LogicalOp>, fields: Vec<String> },
    /// Fields to order by; true means descending.
    Sort { input: Box<LogicalOp>, keys: Vec<(String, bool)> },
    Limit { input: Box<LogicalOp>, count: u64 },
    Aggregate { input: Box<LogicalOp>, group_by: Vec<String>, aggs: Vec<Agg> },
    Join { left: Box<LogicalOp>, right: Box<LogicalOp>, left_key: String, right_key: String },
}

/// What a [`LogicalOp`] asks for.
#[allow(inconsistent_fields)]
pub enum OpModel {
    Scan { collection: Seq<char> },
    GetById { collection: Seq<char>, id: u64 },
    GetByIds { collection: Seq<char>, ids: Seq<u64> },
    Filter { input: Box<OpModel>, predicate: ExprModel },
    Project { input: Box<OpModel>, fields: Seq<Seq<char>> },
    Sort { input: Box<OpModel>, keys: Seq<(Seq<char>, bool)> },
    Limit { input: Box<OpModel>, count: u64 },
    Aggregate { input: Box<OpModel>, group_by: Seq<Seq<char>>, aggs: Seq<AggModel> },
    Join { left: Box<OpModel>, right: Box<OpModel>, left_key: Seq<char>, right_key: Seq<char> },
}

pub open spec fn key_models(keys: Seq<(String, bool)>) -> Seq<(Seq<char>, bool)> {
    keys.map_values(|k: (String, bool)| (k.0@, k.1))
}

fn dup_keys(keys: &Vec<(String, bool)>) -> (out: Vec<(String, bool)>)
    ensures
        key_models(out@) == key_models(keys@),
{
    let mut out: Vec<(String, bool)> = Vec::new();
    let mut i: usize = 0;
    while i < keys.len()
        invariant
            i <= keys.len(),
            out@.len() == i,
            forall|k: int|
                0 <= k < i ==> (#[trigger] out@[k]).0@ == keys@[k].0@ && out@[k].1 == keys@[k].1,
        decreases keys.len() - i,
    {
        out.push((keys[i].0.clone(), keys[i].1));
        i += 1;
    }
    assert(key_models(out@) =~= key_models(keys@));
    out
}

impl LogicalOp {
    pub open spec fn model(&self) -> OpModel
        decreases self,
    {
        match self {
            LogicalOp::Scan { collection } => OpModel::Scan { collection: collection@ },
            LogicalOp::GetById { collection, id } => OpModel::GetById {
                collection: collection@,
                id: *id,
            },
            LogicalOp::GetByIds { collection, ids } => OpModel::GetByIds {
                collection: collection@,
                ids: ids@,
            },
            LogicalOp::Filter { input, predicate } => OpModel::Filter {
                input: Box::new(input.model()),
                predicate: predicate.model(),
            },
            LogicalOp::Project { input, fields } => OpModel::Project {
                input: Box::new(input.model()),
                fields: texts(fields@),
            },
            LogicalOp::Sort { input, keys } => OpModel::Sort {
                input: Box::new(input.model()),
                keys: key_models(keys@),
            },
            LogicalOp::Limit { input, count } => OpModel::Limit {
                input: Box::new(input.model()),
                count: *count,
            },
            LogicalOp::Aggregate { input, group_by, aggs } => OpModel::Aggregate {
                input: Box::new(input.model()),
                group_by: texts(group_by@),
                aggs: agg_models(aggs@),
            },
            LogicalOp::Join { left, right, left_key, right_key } => OpModel::Join {
                left: Box::new(left.model()),
                right: Box::new(right.model()),
                left_key: left_key@,
                right_key: right_key@,
            },
        }
    }

    /// Every record of a collection.
    pub fn scan(collection: &str) -> (op: LogicalOp)
        ensures
            op.model() == (OpModel::Scan { collection: collection@ }),
    {
        LogicalOp::Scan { collection: collection.to_owned() }
    }

    /// One record.
    pub fn get(collection: &str, id: u64) -> (op: LogicalOp)
        ensures
            op.model() == (OpModel::GetById { collection: collection@, id }),
    {
        LogicalOp::GetById { collection: collection.to_owned(), id }
    }

    pub fn filter(self, predicate: Expr) -> (op: LogicalOp)
        ensures
            op.model() == (OpModel::Filter {
                input: Box::new(self.model()),
                predicate: predicate.model(),
            }),
    {
        LogicalOp::Filter { input: Box::new(self), predicate }
    }

    pub fn project(self, fields: Vec<String>) -> (op: LogicalOp)
        ensures
            op.model() == (OpModel::Project {
                input: Box::new(self.model()),
                fields: texts(fields@),
            }),
    {
        LogicalOp::Project { input: Box::new(self), fields }
    }

    pub fn limit(self, count: u64) -> (op: LogicalOp)
        ensures
            op.model() == (OpModel::Limit { input: Box::new(self.model()), count }),
    {
        LogicalOp::Limit { input: Box::new(self), count }
    }

    pub fn aggregate(self, group_by: Vec<String>, aggs: Vec<Agg>) -> (op: LogicalOp)
        ensures
            op.model() == (OpModel::Aggregate {
                input: Box::new(self.model()),
                group_by: texts(group_by@),
                aggs: agg_models(aggs@),
            }),
    {
        LogicalOp::Aggregate { input: Box::new(self), group_by, aggs }
    }

    /// A copy that asks for the same.
    pub fn dup(&self) -> (op: LogicalOp)
        ensures
            op.model() == self.model(),
        decreases self,
    {
        match self {
            LogicalOp::Scan { collection } => LogicalOp::Scan { collection: collection.clone() },
            LogicalOp::GetById { collection, id } => LogicalOp::GetById {
                collection: collection.clone(),
                id: *id,
            },
            LogicalOp::GetByIds { collection, ids } => {
                let copy = ids.clone();
                assert(copy@ =~= ids@);
                LogicalOp::GetByIds { collection: collection.clone(), ids: copy }
            },
            LogicalOp::Filter { input, predicate } => LogicalOp::Filter {
                input: Box::new(input.dup()),
                predicate: predicate.dup(),
            },
            LogicalOp::Project { input, fields } => LogicalOp::Project {
                input: Box::new(input.dup()),
                fields: dup_strings(fields),
            },
            LogicalOp::Sort { input, keys } => LogicalOp::Sort {
                input: Box::new(input.dup()),
                keys: dup_keys(keys),
            },
            LogicalOp::Limit { input, count } => LogicalOp::Limit {
                input: Box::new(input.dup()),
                count: *count,
            },
            LogicalOp::Aggregate { input, group_by, aggs } => LogicalOp::Aggregate {
                input: Box::new(input.dup()),
                group_by: dup_strings(group_by),
                aggs: dup_aggs(aggs),
            },
            LogicalOp::Join { left, right, left_key, right_key } => LogicalOp::Join {
                left: Box::new(left.dup()),
                right: Box::new(right.dup()),
                left_key: left_key.clone(),
                right_key: right_key.clone(),
            },
        }
    }
}

/// What an operator reads from. A join has two inputs, a leaf none.
pub open spec fn input_of(op: OpModel) -> Option<OpModel> {
    match op {
        OpModel::Filter { input, .. } => Some(*input),
        OpModel::Project { input, .. } => Some(*input),
        OpModel::Sort { input, .. } => Some(*input),
        OpModel::Limit { input, .. } => Some(*input),
        OpModel::Aggregate { input, .. } => Some(*input),
        _ => None,
    }
}

/// How many joins appear anywhere in a plan.
pub open spec fn joins_in(op: OpModel) -> nat
    decreases op,
{
    match op {
        OpModel::Filter { input, .. } => joins_in(*input),
        OpModel::Project { input, .. } => joins_in(*input),
        OpModel::Sort { input, .. } => joins_in(*input),
        OpModel::Limit { input, .. } => joins_in(*input),
        OpModel::Aggregate { input, .. } => joins_in(*input),
        OpModel::Join { left, right, .. } => 1 + joins_in(*left) + joins_in(*right),
        _ => 0,
    }
}

/// The one collection a plan without a join reads.
pub open spec fn collection_of(op: OpModel) -> Seq<char>
    decreases op,
{
    match op {
        OpModel::Scan { collection } => collection,
        OpModel::GetById { collection, .. } => collection,
        OpModel::GetByIds { collection, .. } => collection,
        OpModel::Filter { input, .. } => collection_of(*input),
        OpModel::Project { input, .. } => collection_of(*input),
        OpModel::Sort { input, .. } => collection_of(*input),
        OpModel::Limit { input, .. } => collection_of(*input),
        OpModel::Aggregate { input, .. } => collection_of(*input),
        OpModel::Join { left, .. } => collection_of(*left),
    }
}

/// Whether `part` stands anywhere in a plan, or is it.
pub open spec fn found_in(part: OpModel, op: OpModel) -> bool
    decreases op,
{
    part == op || match op {
        OpModel::Filter { input, .. } => found_in(part, *input),
        OpModel::Project { input, .. } => found_in(part, *input),
        OpModel::Sort { input, .. } => found_in(part, *input),
        OpModel::Limit { input, .. } => found_in(part, *input),
        OpModel::Aggregate { input, .. } => found_in(part, *input),
        OpModel::Join { left, right, .. } => found_in(part, *left) || found_in(part, *right),
        _ => false,
    }
}

/// Whether a join stands anywhere in a plan.
pub open spec fn has_join(op: OpModel) -> bool {
    exists|part: OpModel| #[trigger] found_in(part, op) && part is Join
}

/// A plan joins where a join stands anywhere in it, and more than once where one stands
/// in the input of another.
pub proof fn a_plan_joins_where_a_join_stands_in_it(op: OpModel)
    ensures
        joins_in(op) > 0 <==> has_join(op),
        op matches OpModel::Join { left, right, .. } ==> (joins_in(op) > 1 <==> has_join(*left)
            || has_join(*right)),
    decreases op,
{
    assert(found_in(op, op));
    let input = match op {
        OpModel::Filter { input, .. } => Some(*input),
        OpModel::Project { input, .. } => Some(*input),
        OpModel::Sort { input, .. } => Some(*input),
        OpModel::Limit { input, .. } => Some(*input),
        OpModel::Aggregate { input, .. } => Some(*input),
        _ => None,
    };
    if let Some(i) = input {
        a_plan_joins_where_a_join_stands_in_it(i);
        if has_join(i) {
            let part = choose|part: OpModel| #[trigger] found_in(part, i) && part is Join;
            assert(found_in(part, op));
        }
        if has_join(op) {
            let part = choose|part: OpModel| #[trigger] found_in(part, op) && part is Join;
            assert(found_in(part, i));
        }
    }
    if let OpModel::Join { left, right, .. } = op {
        a_plan_joins_where_a_join_stands_in_it(*left);
        a_plan_joins_where_a_join_stands_in_it(*right);
    }
}

/// Whether a join appears anywhere in `op`.
pub fn contains_join(op: &LogicalOp) -> (r: bool)
    ensures
        r == (joins_in(op.model()) > 0),
    decreases op,
{
    match op {
        LogicalOp::Filter { input, .. } => contains_join(input),
        LogicalOp::Project { input, .. } => contains_join(input),
        LogicalOp::Sort { input, .. } => contains_join(input),
        LogicalOp::Limit { input, .. } => contains_join(input),
        LogicalOp::Aggregate { input, .. } => contains_join(input),
        LogicalOp::Join { .. } => true,
        _ => false,
    }
}

/// How many `Join` nodes appear anywhere in `op`. A count past what a `usize`
/// holds stays at the largest one.
pub fn count_joins(op: &LogicalOp) -> (n: usize)
    ensures
        n == if joins_in(op.model()) <= usize::MAX {
            joins_in(op.model())
        } else {
            usize::MAX as nat
        },
    decreases op,
{
    match op {
        LogicalOp::Filter { input, .. } => count_joins(input),
        LogicalOp::Project { input, .. } => count_joins(input),
        LogicalOp::Sort { input, .. } => count_joins(input),
        LogicalOp::Limit { input, .. } => count_joins(input),
        LogicalOp::Aggregate { input, .. } => count_joins(input),
        LogicalOp::Join { left, right, .. } => {
            let below: usize = count_joins(left).saturating_add(count_joins(right));
            below.saturating_add(1)
        },
        _ => 0,
    }
}

impl LogicalOp {
    /// The one collection this plan reads.
    pub fn collection(&self) -> (c: &str)
        requires
            joins_in(self.model()) == 0,
        ensures
            c@ == collection_of(self.model()),
        decreases self,
    {
        match self {
            LogicalOp::Scan { collection } => collection.as_str(),
            LogicalOp::GetById { collection, .. } => collection.as_str(),
            LogicalOp::GetByIds { collection, .. } => collection.as_str(),
            LogicalOp::Filter { input, .. } => input.collection(),
            LogicalOp::Project { input, .. } => input.collection(),
            LogicalOp::Sort { input, .. } => input.collection(),
            LogicalOp::Limit { input, .. } => input.collection(),
            LogicalOp::Aggregate { input, .. } => input.collection(),
            LogicalOp::Join { left, .. } => left.collection(),
        }
    }

    /// What this operator reads from, where it has one input.
    pub fn child(&self) -> (r: Option<&LogicalOp>)
        ensures
            match input_of(self.model()) {
                Some(m) => r matches Some(op) && op.model() == m && decreases_to!(self => op),
                None => r is None,
            },
    {
        match self {
            LogicalOp::Filter { input, .. } => Some(&**input),
            LogicalOp::Project { input, .. } => Some(&**input),
            LogicalOp::Sort { input, .. } => Some(&**input),
            LogicalOp::Limit { input, .. } => Some(&**input),
            LogicalOp::Aggregate { input, .. } => Some(&**input),
            _ => None,
        }
    }
}

/// Whether a plan reads a collection where `part` stands in it.
pub open spec fn reads_from(part: OpModel, c: Seq<char>) -> bool {
    match part {
        OpModel::Scan { collection } => collection == c,
        OpModel::GetById { collection, .. } => collection == c,
        OpModel::GetByIds { collection, .. } => collection == c,
        _ => false,
    }
}

/// A plan without a join reads one collection and no other: wherever in it records are
/// read, they are of that one. A plan that joins is counted with what it joins to.
pub proof fn a_plan_reads_the_collection_it_is_of(op: OpModel, part: OpModel, c: Seq<char>)
    requires
        found_in(part, op),
        reads_from(part, c),
    ensures
        !has_join(op) ==> collection_of(op) == c,
        op matches OpModel::Join { left, .. } ==> (!has_join(*left) && found_in(part, *left)
            ==> collection_of(op) == c),
    decreases op,
{
    assert(found_in(op, op));
    match op {
        OpModel::Filter { input, .. } => {
            lemma_input_joins(op, *input);
            a_plan_reads_the_collection_it_is_of(*input, part, c);
        },
        OpModel::Project { input, .. } => {
            lemma_input_joins(op, *input);
            a_plan_reads_the_collection_it_is_of(*input, part, c);
        },
        OpModel::Sort { input, .. } => {
            lemma_input_joins(op, *input);
            a_plan_reads_the_collection_it_is_of(*input, part, c);
        },
        OpModel::Limit { input, .. } => {
            lemma_input_joins(op, *input);
            a_plan_reads_the_collection_it_is_of(*input, part, c);
        },
        OpModel::Aggregate { input, .. } => {
            lemma_input_joins(op, *input);
            a_plan_reads_the_collection_it_is_of(*input, part, c);
        },
        OpModel::Join { left, right, .. } => {
            assert(has_join(op));
            if found_in(part, *left) {
                a_plan_reads_the_collection_it_is_of(*left, part, c);
            }
        },
        _ => {},
    }
}

proof fn lemma_input_joins(op: OpModel, input: OpModel)
    requires
        forall|part: OpModel| #[trigger] found_in(part, input) ==> found_in(part, op),
    ensures
        has_join(input) ==> has_join(op),
{
    if has_join(input) {
        let part = choose|part: OpModel| #[trigger] found_in(part, input) && part is Join;
        assert(found_in(part, op));
    }
}

} // verus!
