//! Materialized views over grouped aggregates.
//!
//! An aggregate reads every row to produce a handful. A view holds the handful
//! and keeps it up to date as rows come and go.
//!
//! Sums are kept only while they are exact: every value added or taken away is
//! a whole number, and all of them together stay below two to the fifty-third.
//! Under that condition no addition rounds, so the order of the additions does
//! not matter and a maintained sum is the sum a scan computes. The moment the
//! condition fails the view stops answering. The budget is a high-water mark and
//! is never given back.
//!
//! `MIN` and `MAX` are excluded: taking away the current minimum says nothing
//! about the next one.

use vstd::prelude::*;
use vstd::string::*;
use crate::assoc::{
    distinct_keys, find, lemma_find_absent, lemma_find_at, lemma_find_insert, lemma_find_remove,
    lemma_find_removed, lemma_find_some, lemma_find_update,
};
use crate::number::{
    add_capped, capped, float_bits, float_of, mul_capped, number, number_of, Number, NumberModel, EXACT_INTEGER_LIMIT,
};
use crate::plan::{agg_models, aggs_same, dup_aggs, Agg, AggKind, AggModel, LogicalOp, OpModel};
use crate::record::{field_of, record_models, Record, RecordModel};
use crate::text::{dec_text, dup_strings, join, joined, push_dec, str_eq, strings_same, texts};
use crate::value::{
    lemma_list_before_total, lemma_list_before_transitive, list_before, models, values_before,
    values_same, Value, ValueModel,
};

verus! {

/// Whether an aggregate can be kept up to date without reading the rows again.
pub open spec fn maintainable(aggs: Seq<AggModel>) -> bool {
    aggs.len() > 0 && forall|i: int|
        0 <= i < aggs.len() ==> ((#[trigger] aggs[i]).kind == AggKind::Count || aggs[i].kind
            == AggKind::Sum || aggs[i].kind == AggKind::Avg)
}

/// Whether every aggregate of a query can be kept up to date.
pub fn is_maintainable(aggs: &Vec<Agg>) -> (r: bool)
    ensures
        r == maintainable(agg_models(aggs@)),
{
    let ghost all = agg_models(aggs@);
    let mut i: usize = 0;
    while i < aggs.len()
        invariant
            i <= aggs.len(),
            all == agg_models(aggs@),
            forall|k: int|
                0 <= k < i ==> ((#[trigger] all[k]).kind == AggKind::Count || all[k].kind
                    == AggKind::Sum || all[k].kind == AggKind::Avg),
        decreases aggs.len() - i,
    {
        let kept = match aggs[i].kind {
            AggKind::Count => true,
            AggKind::Sum => true,
            AggKind::Avg => true,
            _ => false,
        };
        assert(all[i as int].kind == aggs@[i as int].kind);
        if !kept {
            return false;
        }
        i += 1;
    }
    aggs.len() > 0
}

// -- what a scan would compute -----------------------------------------------

/// What a view is of: how rows are grouped and what is computed.
pub struct Def {
    pub group_by: Seq<Seq<char>>,
    pub aggs: Seq<AggModel>,
}

/// The group a record belongs to. A missing field groups under null.
pub open spec fn group_key(group_by: Seq<Seq<char>>, r: RecordModel) -> Seq<ValueModel> {
    group_by.map_values(
        |g: Seq<char>|
            match field_of(r, g) {
                Some(v) => v,
                None => ValueModel::Null,
            },
    )
}

/// What a record contributes to an aggregate, if anything: a counted row or
/// value adds nothing to a sum, and only numbers are summed.
pub open spec fn share(a: AggModel, r: RecordModel) -> Option<NumberModel> {
    match (a.kind, a.field) {
        (AggKind::Count, None) => Some(NumberModel::Exact(0)),
        (AggKind::Count, Some(f)) => match field_of(r, f) {
            Some(v) if !(v is Null) => Some(NumberModel::Exact(0)),
            _ => None,
        },
        (_, Some(f)) => match field_of(r, f) {
            Some(v) => number(v),
            None => None,
        },
        (_, None) => None,
    }
}

/// How much a contribution adds to a sum.
pub open spec fn amount(s: Option<NumberModel>) -> int {
    match s {
        Some(NumberModel::Exact(v)) => v,
        _ => 0,
    }
}

/// How many of `rows` belong to a group.
pub open spec fn rows_in(d: Def, rows: Seq<RecordModel>, key: Seq<ValueModel>) -> nat
    decreases rows.len(),
{
    if rows.len() == 0 {
        0
    } else {
        rows_in(d, rows.drop_last(), key) + if group_key(d.group_by, rows.last()) == key {
            1nat
        } else {
            0
        }
    }
}

/// How many of `rows` in a group contribute to aggregate `i`.
pub open spec fn count_in(d: Def, rows: Seq<RecordModel>, key: Seq<ValueModel>, i: int) -> nat
    decreases rows.len(),
{
    if rows.len() == 0 {
        0
    } else {
        count_in(d, rows.drop_last(), key, i) + if group_key(d.group_by, rows.last()) == key
            && share(d.aggs[i], rows.last()) is Some {
            1nat
        } else {
            0
        }
    }
}

/// What `rows` in a group add up to for aggregate `i`.
pub open spec fn sum_in(d: Def, rows: Seq<RecordModel>, key: Seq<ValueModel>, i: int) -> int
    decreases rows.len(),
{
    if rows.len() == 0 {
        0
    } else {
        sum_in(d, rows.drop_last(), key, i) + if group_key(d.group_by, rows.last()) == key {
            amount(share(d.aggs[i], rows.last()))
        } else {
            0
        }
    }
}

/// One group's running totals.
pub struct GroupModel {
    pub rows: nat,
    pub accs: Seq<AccModel>,
}

/// One running total: how many values went in, and what they add up to.
#[verifier::ext_equal]
pub struct AccModel {
    pub count: nat,
    pub sum: int,
}

/// Whether what a view holds for a group is what a scan of `rows` computes. A
/// group nothing belongs to is not held.
pub open spec fn agrees(
    d: Def,
    rows: Seq<RecordModel>,
    key: Seq<ValueModel>,
    held: Option<GroupModel>,
) -> bool {
    match held {
        None => rows_in(d, rows, key) == 0,
        Some(g) => {
            &&& rows_in(d, rows, key) > 0
            &&& g.rows == rows_in(d, rows, key)
            &&& g.accs.len() == d.aggs.len()
            &&& forall|i: int|
                0 <= i < d.aggs.len() ==> {
                    &&& (#[trigger] g.accs[i]).count == count_in(d, rows, key, i)
                    &&& g.accs[i].sum == sum_in(d, rows, key, i)
                }
        },
    }
}

proof fn lemma_tallies_push(
    d: Def,
    rows: Seq<RecordModel>,
    r: RecordModel,
    key: Seq<ValueModel>,
)
    ensures
        rows_in(d, rows.push(r), key) == rows_in(d, rows, key) + if group_key(d.group_by, r) == key {
            1nat
        } else {
            0
        },
        forall|i: int|
            #![trigger count_in(d, rows.push(r), key, i)]
            count_in(d, rows.push(r), key, i) == count_in(d, rows, key, i) + if group_key(
                d.group_by,
                r,
            ) == key && share(d.aggs[i], r) is Some {
                1nat
            } else {
                0
            },
        forall|i: int|
            #![trigger sum_in(d, rows.push(r), key, i)]
            sum_in(d, rows.push(r), key, i) == sum_in(d, rows, key, i) + if group_key(d.group_by, r)
                == key {
                amount(share(d.aggs[i], r))
            } else {
                0
            },
{
    assert(rows.push(r).drop_last() =~= rows);
}

proof fn lemma_tallies_remove(d: Def, rows: Seq<RecordModel>, j: int, key: Seq<ValueModel>, i: int)
    requires
        0 <= j < rows.len(),
    ensures
        rows_in(d, rows, key) == rows_in(d, rows.remove(j), key) + if group_key(
            d.group_by,
            rows[j],
        ) == key {
            1nat
        } else {
            0
        },
        count_in(d, rows, key, i) == count_in(d, rows.remove(j), key, i) + if group_key(
            d.group_by,
            rows[j],
        ) == key && share(d.aggs[i], rows[j]) is Some {
            1nat
        } else {
            0
        },
        sum_in(d, rows, key, i) == sum_in(d, rows.remove(j), key, i) + if group_key(
            d.group_by,
            rows[j],
        ) == key {
            amount(share(d.aggs[i], rows[j]))
        } else {
            0
        },
    decreases rows.len(),
{
    if j == rows.len() - 1 {
        assert(rows.remove(j) =~= rows.drop_last());
    } else {
        lemma_tallies_remove(d, rows.drop_last(), j, key, i);
        assert(rows.drop_last()[j] == rows[j]);
        assert(rows.remove(j).drop_last() =~= rows.drop_last().remove(j));
        assert(rows.remove(j).last() == rows.last());
    }
}

// -- the exactness budget ----------------------------------------------------

/// Whether an aggregate can still be trusted, and how much of its budget is
/// spent.
pub struct Budget {
    pub exact: bool,
    pub spent: nat,
}

pub open spec fn magnitude(v: int) -> nat {
    if v < 0 {
        (-v) as nat
    } else {
        v as nat
    }
}

/// A budget after one value went through its accumulator, in either direction.
pub open spec fn charged(b: Budget, s: Option<NumberModel>) -> Budget {
    if !b.exact {
        b
    } else {
        match s {
            None => b,
            Some(NumberModel::Rough) => Budget { exact: false, ..b },
            Some(NumberModel::Exact(v)) => {
                let spent = b.spent + magnitude(v);
                Budget { exact: spent < EXACT_INTEGER_LIMIT, spent }
            },
        }
    }
}

/// The budgets after a record went through. Counting costs nothing.
pub open spec fn charged_all(d: Def, budgets: Seq<Budget>, r: RecordModel) -> Seq<Budget> {
    Seq::new(
        budgets.len(),
        |i: int|
            if d.aggs[i].kind == AggKind::Count {
                budgets[i]
            } else {
                charged(budgets[i], share(d.aggs[i], r))
            },
    )
}

/// What rows cost an aggregate's budget. Counting costs nothing.
pub open spec fn cost_of(d: Def, rows: Seq<RecordModel>, i: int) -> nat
    decreases rows.len(),
{
    if rows.len() == 0 {
        0
    } else {
        cost_of(d, rows.drop_last(), i) + magnitude(amount(share(d.aggs[i], rows.last())))
    }
}

/// Whether no row adds to a sum what cannot be summed exactly.
pub open spec fn summable(d: Def, rows: Seq<RecordModel>, i: int) -> bool {
    forall|k: int|
        0 <= k < rows.len() ==> share(d.aggs[i], #[trigger] rows[k]) != Some(NumberModel::Rough)
}

/// Whether a budget has paid for rows: nothing among them is rough, and what they cost
/// was spent. Counting costs nothing.
pub open spec fn paid(d: Def, rows: Seq<RecordModel>, b: Budget, i: int) -> bool {
    d.aggs[i].kind == AggKind::Count || (summable(d, rows, i) && cost_of(d, rows, i) <= b.spent)
}

/// Whether every budget has paid for rows.
pub open spec fn paid_for(d: Def, rows: Seq<RecordModel>, budgets: Seq<Budget>) -> bool {
    forall|i: int| 0 <= i < budgets.len() ==> #[trigger] paid(d, rows, budgets[i], i)
}

proof fn lemma_cost_remove(d: Def, rows: Seq<RecordModel>, j: int, i: int)
    requires
        0 <= j < rows.len(),
    ensures
        cost_of(d, rows, i) == cost_of(d, rows.remove(j), i) + magnitude(
            amount(share(d.aggs[i], rows[j])),
        ),
        summable(d, rows, i) ==> summable(d, rows.remove(j), i),
    decreases rows.len(),
{
    if j == rows.len() - 1 {
        assert(rows.remove(j) =~= rows.drop_last());
    } else {
        lemma_cost_remove(d, rows.drop_last(), j, i);
        assert(rows.drop_last()[j] == rows[j]);
        assert(rows.remove(j).drop_last() =~= rows.drop_last().remove(j));
        assert(rows.remove(j).last() == rows.last());
    }
    if summable(d, rows, i) {
        assert forall|k: int| 0 <= k < rows.remove(j).len() implies share(
            d.aggs[i],
            #[trigger] rows.remove(j)[k],
        ) != Some(NumberModel::Rough) by {
            let x = if k < j { k } else { k + 1 };
            assert(rows.remove(j)[k] == rows[x]);
        }
    }
}

/// Paying for a row that arrives pays for all of them.
proof fn lemma_paid_arrival(
    d: Def,
    rows: Seq<RecordModel>,
    r: RecordModel,
    before: Seq<Budget>,
    after: Seq<Budget>,
)
    requires
        paid_for(d, rows, before),
        after == charged_all(d, before, r),
        forall|i: int| 0 <= i < after.len() ==> (#[trigger] after[i]).exact,
    ensures
        paid_for(d, rows.push(r), after),
{
    assert(rows.push(r).drop_last() =~= rows);
    assert forall|i: int| 0 <= i < after.len() implies #[trigger] paid(
        d,
        rows.push(r),
        after[i],
        i,
    ) by {
        assert(paid(d, rows, before[i], i));
        assert(after[i].exact);
    }
}

/// A row that leaves takes what it cost with it, and is paid for all the same.
proof fn lemma_paid_departure(
    d: Def,
    rows: Seq<RecordModel>,
    j: int,
    before: Seq<Budget>,
    after: Seq<Budget>,
)
    requires
        0 <= j < rows.len(),
        paid_for(d, rows, before),
        before.len() == after.len(),
        forall|i: int| 0 <= i < after.len() ==> (#[trigger] after[i]).spent >= before[i].spent,
    ensures
        paid_for(d, rows.remove(j), after),
{
    assert forall|i: int| 0 <= i < after.len() implies #[trigger] paid(
        d,
        rows.remove(j),
        after[i],
        i,
    ) by {
        assert(paid(d, rows, before[i], i));
        assert(after[i].spent >= before[i].spent);
        lemma_cost_remove(d, rows, j, i);
    }
}

/// What rows cost does not depend on their order.
proof fn lemma_cost_of_any_order(
    d: Def,
    rows: Seq<RecordModel>,
    others: Seq<RecordModel>,
    i: int,
)
    requires
        rows.to_multiset() == others.to_multiset(),
    ensures
        cost_of(d, rows, i) == cost_of(d, others, i),
        summable(d, rows, i) ==> summable(d, others, i),
    decreases rows.len(),
{
    rows.to_multiset_ensures();
    others.to_multiset_ensures();
    if rows.len() > 0 {
        let r = rows.last();
        let fewer = rows.drop_last();
        assert(rows.contains(r));
        assert(rows.to_multiset().count(r) > 0);
        assert(others.contains(r));
        let j = choose|j: int| 0 <= j < others.len() && others[j] == r;
        assert(rows.remove(rows.len() - 1) =~= fewer);
        assert(fewer.to_multiset() =~= others.remove(j).to_multiset());
        lemma_cost_of_any_order(d, fewer, others.remove(j), i);
        lemma_cost_remove(d, others, j, i);
    }
    if summable(d, rows, i) {
        assert forall|k: int| 0 <= k < others.len() implies share(d.aggs[i], #[trigger] others[k])
            != Some(NumberModel::Rough) by {
            assert(others.contains(others[k]));
            assert(others.to_multiset().count(others[k]) > 0);
            assert(rows.contains(others[k]));
            let x = choose|x: int| 0 <= x < rows.len() && rows[x] == others[k];
            assert(share(d.aggs[i], rows[x]) != Some(NumberModel::Rough));
        }
    }
}

/// Rows that cost less than the limit leave a budget exact.
proof fn lemma_budget_over(d: Def, rows: Seq<RecordModel>, i: int)
    requires
        0 <= i < d.aggs.len(),
        d.aggs[i].kind != AggKind::Count ==> summable(d, rows, i) && cost_of(d, rows, i)
            < EXACT_INTEGER_LIMIT,
    ensures
        budgets_over(d, rows).len() == d.aggs.len(),
        budgets_over(d, rows)[i].exact,
        d.aggs[i].kind != AggKind::Count ==> budgets_over(d, rows)[i].spent == cost_of(d, rows, i),
    decreases rows.len(),
{
    if rows.len() > 0 {
        let rest = rows.drop_last();
        if d.aggs[i].kind != AggKind::Count {
            assert forall|k: int| 0 <= k < rest.len() implies share(d.aggs[i], #[trigger] rest[k])
                != Some(NumberModel::Rough) by {
                assert(rest[k] == rows[k]);
            }
            assert(share(d.aggs[i], rows[rows.len() - 1]) != Some(NumberModel::Rough));
        }
        lemma_budget_over(d, rest, i);
    }
}

// -- the view ----------------------------------------------------------------

struct Acc {
    count: u64,
    sum: i64,
}

impl Acc {
    spec fn model(&self) -> AccModel {
        AccModel { count: self.count as nat, sum: self.sum as int }
    }

    fn dup(&self) -> (a: Acc)
        ensures
            a.model() == self.model(),
            a == *self,
    {
        Acc { count: self.count, sum: self.sum }
    }
}

/// Rows are counted apart from the accumulators: a group exists as long as a
/// row is in it, whatever any particular count says.
struct Group {
    rows: u64,
    accs: Vec<Acc>,
}

impl Group {
    spec fn model(&self) -> GroupModel {
        GroupModel { rows: self.rows as nat, accs: self.accs@.map_values(|a: Acc| a.model()) }
    }
}

/// A view kept up to date.
pub struct MaterializedView {
    pub collection: String,
    pub group_by: Vec<String>,
    pub aggs: Vec<Agg>,
    groups: Vec<(Vec<Value>, Group)>,
    exact: Vec<bool>,
    spent: Vec<u64>,
    overfull: bool,
}

/// Groups as held, in the order of their keys.
pub type Groups = Seq<(Seq<ValueModel>, GroupModel)>;

/// Whether keys stand in order.
pub open spec fn keys_in_order(g: Groups) -> bool {
    forall|i: int, j: int|
        #![trigger g[i], g[j]]
        0 <= i < j < g.len() ==> list_before(g[i].0, g[j].0)
}

/// Whether groups and budgets fit together: keys stand in order, no group is
/// empty, and no exact sum exceeds what was spent on it.
spec fn sound(g: Groups, b: Seq<Budget>, width: nat, n: nat) -> bool {
    &&& keys_in_order(g)
    &&& b.len() == n
    &&& forall|k: int|
        0 <= k < g.len() ==> {
            &&& (#[trigger] g[k]).1.rows > 0
            &&& g[k].0.len() == width
            &&& g[k].1.accs.len() == n
            &&& within_budget(g[k].1, b)
        }
    &&& forall|i: int| 0 <= i < n && (#[trigger] b[i]).exact ==> b[i].spent < EXACT_INTEGER_LIMIT
}

/// Whether no exact sum of a group exceeds what was spent.
spec fn within_budget(m: GroupModel, b: Seq<Budget>) -> bool {
    forall|i: int|
        0 <= i < m.accs.len() && b[i].exact ==> magnitude((#[trigger] m.accs[i]).sum) <= b[i].spent
}

/// Whether `b` came from `a` by spending.
spec fn spent_from(a: Seq<Budget>, b: Seq<Budget>) -> bool {
    &&& a.len() == b.len()
    &&& forall|i: int|
        0 <= i < a.len() ==> ((#[trigger] b[i]).exact ==> a[i].exact) && b[i].spent >= a[i].spent
            && (b[i].exact ==> b[i].spent < EXACT_INTEGER_LIMIT)
}

proof fn lemma_in_order_distinct(g: Groups)
    requires
        keys_in_order(g),
    ensures
        distinct_keys(g),
{
    assert forall|i: int, j: int| 0 <= i < j < g.len() implies (#[trigger] g[i]).0 != (
    #[trigger] g[j]).0 by {
        lemma_list_before_total(g[i].0, g[j].0);
    }
}

/// A group that cannot count one more row.
pub open spec fn crowded(g: Option<GroupModel>) -> bool {
    g matches Some(m) && (m.rows >= u64::MAX || exists|i: int|
        0 <= i < m.accs.len() && (#[trigger] m.accs[i]).count >= u64::MAX)
}

impl MaterializedView {
    /// The collection the view is of.
    pub closed spec fn source(&self) -> Seq<char> {
        self.collection@
    }

    /// What the view computes.
    pub closed spec fn def(&self) -> Def {
        Def { group_by: texts(self.group_by@), aggs: agg_models(self.aggs@) }
    }

    pub closed spec fn groups(&self) -> Groups {
        self.groups@.map_values(|e: (Vec<Value>, Group)| (models(e.0@), e.1.model()))
    }

    pub closed spec fn budgets(&self) -> Seq<Budget> {
        Seq::new(
            self.exact@.len(),
            |i: int| Budget { exact: self.exact@[i], spent: self.spent@[i] as nat },
        )
    }

    /// Whether a counter had no room for a row.
    pub closed spec fn overfull(&self) -> bool {
        self.overfull
    }

    /// Whether every aggregate is still exact.
    pub open spec fn exact(&self) -> bool {
        !self.overfull() && forall|i: int|
            0 <= i < self.budgets().len() ==> (#[trigger] self.budgets()[i]).exact
    }

    pub closed spec fn wf(&self) -> bool {
        &&& self.exact@.len() == self.aggs@.len()
        &&& self.spent@.len() == self.aggs@.len()
        &&& sound(self.groups(), self.budgets(), self.group_by@.len(), self.aggs@.len())
    }

    /// Whether an exact view holds what a scan of `rows` computes, and its budgets have
    /// paid for them.
    pub open spec fn follows(&self, rows: Seq<RecordModel>) -> bool {
        self.exact() ==> paid_for(self.def(), rows, self.budgets()) && forall|
            key: Seq<ValueModel>,
        |
            agrees(self.def(), rows, key, #[trigger] find(self.groups(), key))
    }

    pub fn new(collection: &str, group_by: &Vec<String>, aggs: &Vec<Agg>) -> (v: MaterializedView)
        ensures
            v.wf(),
            v.source() == collection@,
            v.def() == (Def { group_by: texts(group_by@), aggs: agg_models(aggs@) }),
            v.groups() == Groups::empty(),
            v.exact(),
            v.budgets() == budgets_over(v.def(), Seq::empty()),
            v.follows(Seq::empty()),
    {
        let mut exact: Vec<bool> = Vec::new();
        let mut spent: Vec<u64> = Vec::new();
        let mut i: usize = 0;
        while i < aggs.len()
            invariant
                i <= aggs.len(),
                exact@.len() == i,
                spent@.len() == i,
                forall|k: int| 0 <= k < i ==> exact@[k] && spent@[k] == 0,
            decreases aggs.len() - i,
        {
            exact.push(true);
            spent.push(0);
            i += 1;
        }
        let aggs = dup_aggs(aggs);
        assert(agg_models(aggs@).len() == aggs@.len());
        let v = MaterializedView {
            collection: collection.to_owned(),
            group_by: dup_strings(group_by),
            aggs,
            groups: Vec::new(),
            exact,
            spent,
            overfull: false,
        };
        assert(v.groups() =~= Groups::empty());
        assert(v.budgets() =~= budgets_over(v.def(), Seq::empty()));
        v
    }

    /// Whether every aggregate in this view is still exact. One that is not
    /// disqualifies the whole view.
    pub fn is_exact(&self) -> (r: bool)
        requires
            self.wf(),
        ensures
            r == self.exact(),
    {
        if self.overfull {
            return false;
        }
        let mut i: usize = 0;
        while i < self.exact.len()
            invariant
                i <= self.exact.len(),
                self.wf(),
                self.budgets().len() == self.exact@.len(),
                forall|k: int| 0 <= k < i ==> (#[trigger] self.budgets()[k]).exact,
            decreases self.exact.len() - i,
        {
            assert(self.budgets()[i as int].exact == self.exact@[i as int]);
            if !self.exact[i] {
                return false;
            }
            i += 1;
        }
        true
    }

    /// Whether this is the view of a collection, grouping and aggregates.
    pub open spec fn is_of(&self, collection: Seq<char>, d: Def) -> bool {
        self.source() == collection && self.def() == d
    }

    fn matches(&self, collection: &str, group_by: &Vec<String>, aggs: &Vec<Agg>) -> (r: bool)
        ensures
            r == self.is_of(
                collection@,
                Def { group_by: texts(group_by@), aggs: agg_models(aggs@) },
            ),
    {
        str_eq(self.collection.as_str(), collection) && strings_same(&self.group_by, group_by)
            && aggs_same(&self.aggs, aggs)
    }

    fn key_of(&self, rec: &Record) -> (key: Vec<Value>)
        ensures
            models(key@) == group_key(self.def().group_by, rec.model()),
            key@.len() == self.group_by@.len(),
    {
        let mut key: Vec<Value> = Vec::new();
        let mut i: usize = 0;
        let ghost want = group_key(self.def().group_by, rec.model());
        while i < self.group_by.len()
            invariant
                i <= self.group_by.len(),
                want == group_key(texts(self.group_by@), rec.model()),
                key@.len() == i,
                forall|k: int| 0 <= k < i ==> (#[trigger] key@[k]).model() == want[k],
            decreases self.group_by.len() - i,
        {
            let v = match rec.get(self.group_by[i].as_str()) {
                Some(v) => v.dup(),
                None => Value::Null,
            };
            key.push(v);
            i += 1;
        }
        assert(models(key@) =~= want);
        key
    }

    fn contributions(&self, rec: &Record) -> (out: Vec<Option<Number>>)
        ensures
            out@.len() == self.aggs@.len(),
            forall|i: int|
                0 <= i < out@.len() ==> match share(self.def().aggs[i], rec.model()) {
                    Some(m) => #[trigger] out@[i] matches Some(n) && n@ == m && (n matches Number::Exact(
                        v,
                    ) ==> -EXACT_INTEGER_LIMIT < v < EXACT_INTEGER_LIMIT),
                    None => out@[i] is None,
                },
    {
        let ghost all = self.def().aggs;
        let mut out: Vec<Option<Number>> = Vec::new();
        let mut i: usize = 0;
        while i < self.aggs.len()
            invariant
                i <= self.aggs.len(),
                all == agg_models(self.aggs@),
                out@.len() == i,
                forall|k: int|
                    0 <= k < i ==> match share(all[k], rec.model()) {
                        Some(m) => #[trigger] out@[k] matches Some(n) && n@ == m && (n matches Number::Exact(
                            v,
                        ) ==> -EXACT_INTEGER_LIMIT < v < EXACT_INTEGER_LIMIT),
                        None => out@[k] is None,
                    },
            decreases self.aggs.len() - i,
        {
            let a = &self.aggs[i];
            assert(all[i as int] == a@);
            let c = match (a.kind, &a.field) {
                (AggKind::Count, None) => Some(Number::Exact(0)),
                (AggKind::Count, Some(f)) => match rec.get(f.as_str()) {
                    Some(v) => if v.is_null() {
                        None
                    } else {
                        Some(Number::Exact(0))
                    },
                    None => None,
                },
                (_, Some(f)) => match rec.get(f.as_str()) {
                    Some(v) => number_of(v),
                    None => None,
                },
                (_, None) => None,
            };
            out.push(c);
            i += 1;
        }
        out
    }

    /// The first place whose key does not sort before `key`.
    fn place(&self, key: &Vec<Value>) -> (at: usize)
        requires
            self.wf(),
        ensures
            at <= self.groups().len(),
            forall|k: int|
                0 <= k < at ==> list_before((#[trigger] self.groups()[k]).0, models(key@)),
            forall|k: int|
                at <= k < self.groups().len() ==> !list_before(
                    (#[trigger] self.groups()[k]).0,
                    models(key@),
                ),
    {
        let ghost g = self.groups();
        let ghost want = models(key@);
        let mut at: usize = 0;
        while at < self.groups.len() && values_before(&self.groups[at].0, key)
            invariant
                at <= self.groups.len(),
                g == self.groups(),
                g.len() == self.groups@.len(),
                want == models(key@),
                forall|k: int| 0 <= k < at ==> list_before((#[trigger] g[k]).0, want),
            decreases self.groups.len() - at,
        {
            assert(g[at as int].0 == models(self.groups@[at as int].0@));
            at += 1;
        }
        proof {
            if at < g.len() {
                assert(g[at as int].0 == models(self.groups@[at as int].0@));
            }
            assert forall|k: int| at <= k < g.len() implies !list_before(
                (#[trigger] g[k]).0,
                want,
            ) by {
                if k > at && list_before(g[k].0, want) {
                    lemma_list_before_transitive(g[at as int].0, g[k].0, want);
                }
            }
        }
        at
    }

    fn holds_at(&self, at: usize, key: &Vec<Value>) -> (r: bool)
        ensures
            r == (at < self.groups().len() && self.groups()[at as int].0 == models(key@)),
    {
        at < self.groups.len() && values_same(&self.groups[at].0, key)
    }
}

/// Finding a key in ordered groups: it stands where `place` says or nowhere.
proof fn lemma_find_placed(g: Groups, key: Seq<ValueModel>, at: int)
    requires
        keys_in_order(g),
        0 <= at <= g.len(),
        forall|k: int| 0 <= k < at ==> list_before((#[trigger] g[k]).0, key),
        forall|k: int| at <= k < g.len() ==> !list_before((#[trigger] g[k]).0, key),
    ensures
        at < g.len() && g[at].0 == key ==> find(g, key) == Some(g[at].1),
        !(at < g.len() && g[at].0 == key) ==> find(g, key) is None,
{
    lemma_list_before_total(key, key);
    if at < g.len() && g[at].0 == key {
        assert forall|j: int| 0 <= j < at implies (#[trigger] g[j]).0 != key by {
            assert(list_before(g[j].0, key));
        }
        lemma_find_at(g, key, at);
    } else {
        assert forall|j: int| 0 <= j < g.len() implies (#[trigger] g[j]).0 != key by {
            if j < at {
                assert(list_before(g[j].0, key));
            } else if j > at && g[j].0 == key {
                assert(list_before(g[at].0, g[j].0));
            }
        }
        lemma_find_absent(g, key);
    }
}

// -- maintenance -------------------------------------------------------------

/// A group before its first row.
pub open spec fn fresh_group(d: Def) -> GroupModel {
    GroupModel {
        rows: 0,
        accs: Seq::new(d.aggs.len(), |i: int| AccModel { count: 0, sum: 0 }),
    }
}

/// A number one lower, where there is one.
pub open spec fn less_one(n: nat) -> nat {
    if n == 0 {
        0
    } else {
        (n - 1) as nat
    }
}

/// A running total after a record came or went. A sum that is no longer exact is
/// left alone.
pub open spec fn acc_after(
    a: AccModel,
    s: Option<NumberModel>,
    exact: bool,
    arriving: bool,
) -> AccModel {
    if s is None {
        a
    } else if arriving {
        AccModel {
            count: a.count + 1,
            sum: if exact {
                a.sum + amount(s)
            } else {
                a.sum
            },
        }
    } else {
        AccModel {
            count: less_one(a.count),
            sum: if exact {
                a.sum - amount(s)
            } else {
                a.sum
            },
        }
    }
}

/// A group after a record came or went.
pub open spec fn group_after(
    d: Def,
    g: GroupModel,
    r: RecordModel,
    budgets: Seq<Budget>,
    arriving: bool,
) -> GroupModel {
    GroupModel {
        rows: if arriving {
            g.rows + 1
        } else {
            less_one(g.rows)
        },
        accs: Seq::new(
            g.accs.len(),
            |i: int| acc_after(g.accs[i], share(d.aggs[i], r), budgets[i].exact, arriving),
        ),
    }
}

/// What shares a record has, as read from it.
spec fn shares_of(d: Def, r: RecordModel, shares: Seq<Option<Number>>) -> bool {
    &&& shares.len() == d.aggs.len()
    &&& forall|i: int|
        0 <= i < shares.len() ==> match share(d.aggs[i], r) {
            Some(m) => #[trigger] shares[i] matches Some(n) && n@ == m && (n matches Number::Exact(
                v,
            ) ==> -EXACT_INTEGER_LIMIT < v < EXACT_INTEGER_LIMIT),
            None => shares[i] is None,
        }
}

fn group_changed(
    group: &Group,
    shares: &Vec<Option<Number>>,
    exact: &Vec<bool>,
    arriving: bool,
    Ghost(d): Ghost<Def>,
    Ghost(r): Ghost<RecordModel>,
    Ghost(budgets): Ghost<Seq<Budget>>,
) -> (g: Group)
    requires
        shares_of(d, r, shares@),
        group.accs@.len() == shares@.len(),
        exact@.len() == shares@.len(),
        budgets.len() == shares@.len(),
        forall|i: int| 0 <= i < exact@.len() ==> (#[trigger] budgets[i]).exact == exact@[i],
        arriving ==> !crowded(Some(group.model())),
        forall|i: int|
            0 <= i < exact@.len() && exact@[i] ==> magnitude(
                (#[trigger] group.model().accs[i]).sum,
            ) < EXACT_INTEGER_LIMIT,
    ensures
        g.model() == group_after(d, group.model(), r, budgets, arriving),
{
    let ghost before = group.model();
    let ghost after = group_after(d, before, r, budgets, arriving);
    let mut accs: Vec<Acc> = Vec::new();
    let mut i: usize = 0;
    while i < group.accs.len()
        invariant
            i <= group.accs.len(),
            shares_of(d, r, shares@),
            group.accs@.len() == shares@.len(),
            exact@.len() == shares@.len(),
            budgets.len() == shares@.len(),
            forall|k: int| 0 <= k < exact@.len() ==> (#[trigger] budgets[k]).exact == exact@[k],
            before == group.model(),
            arriving ==> !crowded(Some(before)),
            after == group_after(d, before, r, budgets, arriving),
            forall|k: int|
                0 <= k < exact@.len() && exact@[k] ==> magnitude((#[trigger] before.accs[k]).sum)
                    < EXACT_INTEGER_LIMIT,
            accs@.len() == i,
            forall|k: int| 0 <= k < i ==> (#[trigger] accs@[k]).model() == after.accs[k],
        decreases group.accs.len() - i,
    {
        let a = &group.accs[i];
        assert(before.accs[i as int] == a.model());
        assert(share(d.aggs[i as int], r) is Some == shares@[i as int] is Some);
        assert(budgets[i as int].exact == exact@[i as int]);
        let next = match &shares[i] {
            None => a.dup(),
            Some(n) => {
                let v: i64 = match n {
                    Number::Exact(v) => *v,
                    Number::Rough => 0,
                };
                if arriving {
                    let sum: i64 = if exact[i] { a.sum + v } else { a.sum };
                    Acc { count: a.count + 1, sum }
                } else {
                    let sum: i64 = if exact[i] { a.sum - v } else { a.sum };
                    let count: u64 = if a.count == 0 { 0 } else { a.count - 1 };
                    Acc { count, sum }
                }
            },
        };
        accs.push(next);
        i += 1;
    }
    let rows: u64 = if arriving {
        group.rows + 1
    } else if group.rows == 0 {
        0
    } else {
        group.rows - 1
    };
    let g = Group { rows, accs };
    assert(g.model().accs =~= after.accs);
    g
}

fn fresh(n: usize, Ghost(d): Ghost<Def>) -> (g: Group)
    requires
        n == d.aggs.len(),
    ensures
        g.model() == fresh_group(d),
        !crowded(Some(g.model())),
{
    let mut accs: Vec<Acc> = Vec::new();
    let mut i: usize = 0;
    while i < n
        invariant
            i <= n,
            accs@.len() == i,
            forall|k: int|
                0 <= k < i ==> (#[trigger] accs@[k]).model() == (AccModel {
                    count: 0,
                    sum: 0,
                }),
        decreases n - i,
    {
        accs.push(Acc { count: 0, sum: 0 });
        i += 1;
    }
    let g = Group { rows: 0, accs };
    assert(g.model().accs =~= fresh_group(d).accs);
    g
}

fn is_crowded(g: &Group) -> (r: bool)
    ensures
        r == crowded(Some(g.model())),
{
    let ghost m = g.model();
    if g.rows == u64::MAX {
        return true;
    }
    let mut i: usize = 0;
    while i < g.accs.len()
        invariant
            i <= g.accs.len(),
            m == g.model(),
            m.accs.len() == g.accs@.len(),
            forall|k: int| 0 <= k < i ==> (#[trigger] m.accs[k]).count < u64::MAX,
        decreases g.accs.len() - i,
    {
        assert(m.accs[i as int] == g.accs@[i as int].model());
        if g.accs[i].count == u64::MAX {
            assert(m.accs[i as int].count >= u64::MAX);
            return true;
        }
        i += 1;
    }
    false
}

proof fn lemma_arrival(
    d: Def,
    rows: Seq<RecordModel>,
    r: RecordModel,
    before: Groups,
    after: Groups,
    budgets: Seq<Budget>,
    base: GroupModel,
)
    requires
        forall|i: int| 0 <= i < d.aggs.len() ==> (#[trigger] budgets[i]).exact,
        base == (match find(before, group_key(d.group_by, r)) {
            Some(g) => g,
            None => fresh_group(d),
        }),
        find(after, group_key(d.group_by, r)) == Some(group_after(d, base, r, budgets, true)),
        forall|k: Seq<ValueModel>|
            k != group_key(d.group_by, r) ==> #[trigger] find(after, k) == find(before, k),
        forall|k: Seq<ValueModel>| agrees(d, rows, k, #[trigger] find(before, k)),
    ensures
        forall|k: Seq<ValueModel>| agrees(d, rows.push(r), k, #[trigger] find(after, k)),
{
    let key = group_key(d.group_by, r);
    assert forall|k: Seq<ValueModel>| agrees(d, rows.push(r), k, #[trigger] find(after, k)) by {
        lemma_tallies_push(d, rows, r, k);
        assert(agrees(d, rows, k, find(before, k)));
        if k == key {
            let g = group_after(d, base, r, budgets, true);
            if find(before, key) is None {
                lemma_nothing_counted(d, rows, key);
            }
            assert forall|i: int| 0 <= i < d.aggs.len() implies {
                &&& (#[trigger] g.accs[i]).count == count_in(d, rows.push(r), key, i)
                &&& g.accs[i].sum == sum_in(d, rows.push(r), key, i)
            } by {
                assert(budgets[i].exact);
                assert(base.accs[i].count == count_in(d, rows, key, i));
                assert(base.accs[i].sum == sum_in(d, rows, key, i));
                assert(count_in(d, rows.push(r), key, i) == count_in(d, rows, key, i) + if share(
                    d.aggs[i],
                    r,
                ) is Some {
                    1nat
                } else {
                    0
                });
                assert(sum_in(d, rows.push(r), key, i) == sum_in(d, rows, key, i) + amount(
                    share(d.aggs[i], r),
                ));
            }
        } else {
            assert(find(after, k) == find(before, k));
            if let Some(g) = find(before, k) {
                assert forall|i: int| 0 <= i < d.aggs.len() implies {
                    &&& (#[trigger] g.accs[i]).count == count_in(d, rows.push(r), k, i)
                    &&& g.accs[i].sum == sum_in(d, rows.push(r), k, i)
                } by {
                    assert(count_in(d, rows.push(r), k, i) == count_in(d, rows, k, i));
                    assert(sum_in(d, rows.push(r), k, i) == sum_in(d, rows, k, i));
                }
            }
        }
    }
}

proof fn lemma_nothing_counted(d: Def, rows: Seq<RecordModel>, key: Seq<ValueModel>)
    requires
        rows_in(d, rows, key) == 0,
    ensures
        forall|i: int| #[trigger] count_in(d, rows, key, i) == 0,
        forall|i: int| #[trigger] sum_in(d, rows, key, i) == 0,
    decreases rows.len(),
{
    if rows.len() > 0 {
        let rest = rows.drop_last();
        lemma_nothing_counted(d, rest, key);
        assert forall|i: int| #[trigger] count_in(d, rows, key, i) == 0 by {
            assert(count_in(d, rest, key, i) == 0);
        }
        assert forall|i: int| #[trigger] sum_in(d, rows, key, i) == 0 by {
            assert(sum_in(d, rest, key, i) == 0);
        }
    }
}

proof fn lemma_counted_are_rows(d: Def, rows: Seq<RecordModel>, key: Seq<ValueModel>, i: int)
    ensures
        count_in(d, rows, key, i) <= rows_in(d, rows, key),
    decreases rows.len(),
{
    if rows.len() > 0 {
        lemma_counted_are_rows(d, rows.drop_last(), key, i);
    }
}

proof fn lemma_departure(
    d: Def,
    rows: Seq<RecordModel>,
    j: int,
    before: Groups,
    after: Groups,
    budgets: Seq<Budget>,
)
    requires
        0 <= j < rows.len(),
        forall|i: int| 0 <= i < d.aggs.len() ==> (#[trigger] budgets[i]).exact,
        find(before, group_key(d.group_by, rows[j])) matches Some(g) && ({
            let left = group_after(d, g, rows[j], budgets, false);
            find(after, group_key(d.group_by, rows[j])) == if left.rows == 0 {
                None
            } else {
                Some(left)
            }
        }),
        forall|k: Seq<ValueModel>|
            k != group_key(d.group_by, rows[j]) ==> #[trigger] find(after, k) == find(before, k),
        forall|k: Seq<ValueModel>| agrees(d, rows, k, #[trigger] find(before, k)),
    ensures
        forall|k: Seq<ValueModel>| agrees(d, rows.remove(j), k, #[trigger] find(after, k)),
{
    let r = rows[j];
    let key = group_key(d.group_by, r);
    let fewer = rows.remove(j);
    assert forall|k: Seq<ValueModel>| agrees(d, fewer, k, #[trigger] find(after, k)) by {
        assert(agrees(d, rows, k, find(before, k)));
        lemma_tallies_remove(d, rows, j, k, 0);
        if k == key {
            let g = find(before, key)->0;
            let left = group_after(d, g, r, budgets, false);
            if left.rows > 0 {
                assert forall|i: int| 0 <= i < d.aggs.len() implies {
                    &&& (#[trigger] left.accs[i]).count == count_in(d, fewer, key, i)
                    &&& left.accs[i].sum == sum_in(d, fewer, key, i)
                } by {
                    assert(budgets[i].exact);
                    lemma_tallies_remove(d, rows, j, key, i);
                    assert(g.accs[i].count == count_in(d, rows, key, i));
                    assert(g.accs[i].sum == sum_in(d, rows, key, i));
                }
            }
        } else {
            assert(find(after, k) == find(before, k));
            if let Some(g) = find(before, k) {
                assert forall|i: int| 0 <= i < d.aggs.len() implies {
                    &&& (#[trigger] g.accs[i]).count == count_in(d, fewer, k, i)
                    &&& g.accs[i].sum == sum_in(d, fewer, k, i)
                } by {
                    lemma_tallies_remove(d, rows, j, k, i);
                    assert(g.accs[i].count == count_in(d, rows, k, i));
                }
            }
        }
    }
}

/// The groups after a record arrived: its own group changes, made first where it
/// was not held, and no other does. A crowded group stays as it is.
pub open spec fn arrived(
    d: Def,
    before: Groups,
    r: RecordModel,
    budgets: Seq<Budget>,
    after: Groups,
) -> bool {
    let key = group_key(d.group_by, r);
    let base = match find(before, key) {
        Some(g) => g,
        None => fresh_group(d),
    };
    if crowded(find(before, key)) {
        after == before
    } else {
        &&& find(after, key) == Some(group_after(d, base, r, budgets, true))
        &&& forall|k: Seq<ValueModel>| k != key ==> #[trigger] find(after, k) == find(before, k)
    }
}

/// The groups after a record left: its own group changes, and goes with its last
/// row.
pub open spec fn departed(
    d: Def,
    before: Groups,
    r: RecordModel,
    budgets: Seq<Budget>,
    after: Groups,
) -> bool {
    let key = group_key(d.group_by, r);
    match find(before, key) {
        None => after == before,
        Some(g) => {
            let left = group_after(d, g, r, budgets, false);
            &&& find(after, key) == if left.rows == 0 {
                None
            } else {
                Some(left)
            }
            &&& forall|k: Seq<ValueModel>| k != key ==> #[trigger] find(after, k) == find(before, k)
        },
    }
}

impl MaterializedView {
    /// Charge a record's contributions against the budgets.
    fn charge(&mut self, shares: &Vec<Option<Number>>, Ghost(r): Ghost<RecordModel>)
        requires
            old(self).wf(),
            shares_of(old(self).def(), r, shares@),
        ensures
            final(self).budgets() == charged_all(old(self).def(), old(self).budgets(), r),
            final(self).collection == old(self).collection,
            final(self).group_by == old(self).group_by,
            final(self).aggs == old(self).aggs,
            final(self).groups == old(self).groups,
            final(self).overfull == old(self).overfull,
            final(self).exact@.len() == old(self).exact@.len(),
            final(self).spent@.len() == old(self).spent@.len(),
    {
        let ghost d = self.def();
        let ghost before = self.budgets();
        let ghost want = charged_all(d, before, r);
        let mut i: usize = 0;
        while i < self.aggs.len()
            invariant
                i <= self.aggs@.len(),
                self.collection == old(self).collection,
                self.group_by == old(self).group_by,
                self.aggs == old(self).aggs,
                self.groups == old(self).groups,
                self.overfull == old(self).overfull,
                self.exact@.len() == self.aggs@.len(),
                self.spent@.len() == self.aggs@.len(),
                d == old(self).def(),
                d.aggs == agg_models(self.aggs@),
                before == old(self).budgets(),
                before.len() == self.aggs@.len(),
                want == charged_all(d, before, r),
                shares_of(d, r, shares@),
                forall|k: int|
                    0 <= k < before.len() && (#[trigger] before[k]).exact ==> before[k].spent
                        < EXACT_INTEGER_LIMIT,
                forall|k: int| 0 <= k < i ==> #[trigger] self.budgets()[k] == want[k],
                forall|k: int|
                    i <= k < self.aggs@.len() ==> #[trigger] self.budgets()[k] == before[k],
            decreases self.aggs@.len() - i,
        {
            let ghost b = self.budgets();
            assert(b[i as int] == before[i as int]);
            assert(d.aggs[i as int].kind == self.aggs@[i as int].kind);
            assert(share(d.aggs[i as int], r) is Some == shares@[i as int] is Some);
            if self.aggs[i].kind != AggKind::Count && self.exact[i] {
                match &shares[i] {
                    None => {},
                    Some(Number::Rough) => {
                        self.exact.set(i, false);
                    },
                    Some(Number::Exact(v)) => {
                        let size: u64 = if *v < 0 { (-*v) as u64 } else { *v as u64 };
                        let total: u64 = self.spent[i] + size;
                        self.spent.set(i, total);
                        if total >= EXACT_INTEGER_LIMIT {
                            self.exact.set(i, false);
                        }
                    },
                }
            }
            assert(self.budgets()[i as int] == want[i as int]);
            assert forall|k: int| 0 <= k < self.aggs@.len() && k != i implies
                #[trigger] self.budgets()[k] == b[k] by {}
            i += 1;
        }
        assert(self.budgets() =~= want);
    }

    /// A row arrived.
    pub fn insert(&mut self, rec: &Record)
        requires
            old(self).wf(),
        ensures
            final(self).wf(),
            final(self).source() == old(self).source(),
            final(self).def() == old(self).def(),
            final(self).budgets() == charged_all(
                old(self).def(),
                old(self).budgets(),
                rec.model(),
            ),
            final(self).overfull() == (old(self).overfull() || crowded(
                find(old(self).groups(), group_key(old(self).def().group_by, rec.model())),
            )),
            arrived(
                old(self).def(),
                old(self).groups(),
                rec.model(),
                final(self).budgets(),
                final(self).groups(),
            ),
            forall|rows: Seq<RecordModel>| #[trigger]
                old(self).follows(rows) ==> final(self).follows(rows.push(rec.model())),
    {
        let ghost d = self.def();
        let ghost r = rec.model();
        let ghost before = self.groups();
        let ghost key_model = group_key(d.group_by, r);
        let key = self.key_of(rec);
        let shares = self.contributions(rec);
        let at = self.place(&key);
        let held = self.holds_at(at, &key);
        proof {
            lemma_find_placed(before, key_model, at as int);
            lemma_in_order_distinct(before);
        }
        let ghost old_budgets = self.budgets();
        self.charge(&shares, Ghost(r));
        let ghost budgets = self.budgets();
        let ghost width = self.group_by@.len();
        let ghost n = self.aggs@.len();
        assert(self.groups() == before);
        proof {
            lemma_budgets_grow(d, old_budgets, r);
            lemma_sound_spend(before, old_budgets, budgets, width, n);
        }
        if held {
            let ghost base = before[at as int].1;
            assert(base == self.groups@[at as int].1.model());
            if is_crowded(&self.groups[at].1) {
                self.overfull = true;
                assert(self.groups() == before);
                assert(self.budgets() =~= budgets);
                return;
            }
            proof {
                lemma_changed_within(d, base, r, old_budgets, true);
            }
            let next = group_changed(
                &self.groups[at].1,
                &shares,
                &self.exact,
                true,
                Ghost(d),
                Ghost(r),
                Ghost(budgets),
            );
            let ghost m = next.model();
            self.groups.set(at, (key, next));
            let ghost after = before.update(at as int, (key_model, m));
            assert(self.groups() =~= after);
            assert(self.budgets() =~= budgets);
            proof {
                lemma_sound_replace(before, budgets, width, n, at as int, m);
                assert forall|k: Seq<ValueModel>| k != key_model implies #[trigger] find(after, k)
                    == find(before, k) by {
                    lemma_find_update(before, at as int, m, k);
                }
                assert forall|j: int| 0 <= j < at implies (#[trigger] after[j]).0 != key_model by {
                    assert(after[j] == before[j]);
                    lemma_list_before_total(key_model, key_model);
                }
                lemma_find_at(after, key_model, at as int);
                self.lemma_insert_follows(*old(self), r, base);
            }
        } else {
            let base = fresh(self.aggs.len(), Ghost(d));
            let ghost zero = base.model();
            assert(base.accs@.len() == zero.accs.len());
            proof {
                lemma_changed_within(d, zero, r, old_budgets, true);
            }
            let next = group_changed(
                &base,
                &shares,
                &self.exact,
                true,
                Ghost(d),
                Ghost(r),
                Ghost(budgets),
            );
            let ghost m = next.model();
            self.groups.insert(at, (key, next));
            let ghost after = before.insert(at as int, (key_model, m));
            assert(self.groups() =~= after);
            assert(self.budgets() =~= budgets);
            proof {
                lemma_sound_insert(before, budgets, width, n, at as int, key_model, m);
                assert forall|k: Seq<ValueModel>| k != key_model implies #[trigger] find(after, k)
                    == find(before, k) by {
                    lemma_find_insert(before, at as int, (key_model, m), k);
                }
                assert forall|j: int| 0 <= j < at implies (#[trigger] after[j]).0 != key_model by {
                    assert(after[j] == before[j]);
                    lemma_list_before_total(key_model, key_model);
                }
                lemma_find_at(after, key_model, at as int);
                self.lemma_insert_follows(*old(self), r, zero);
            }
        }
    }

    proof fn lemma_insert_follows(&self, was: MaterializedView, r: RecordModel, base: GroupModel)
        requires
            was.wf(),
            self.def() == was.def(),
            self.aggs@.len() == was.aggs@.len(),
            self.exact@.len() == self.aggs@.len(),
            self.overfull == was.overfull,
            self.budgets() == charged_all(was.def(), was.budgets(), r),
            base == (match find(was.groups(), group_key(was.def().group_by, r)) {
                Some(g) => g,
                None => fresh_group(was.def()),
            }),
            find(self.groups(), group_key(was.def().group_by, r)) == Some(
                group_after(was.def(), base, r, self.budgets(), true),
            ),
            forall|k: Seq<ValueModel>|
                k != group_key(was.def().group_by, r) ==> #[trigger] find(self.groups(), k) == find(
                    was.groups(),
                    k,
                ),
        ensures
            forall|rows: Seq<RecordModel>| #[trigger]
                was.follows(rows) ==> self.follows(rows.push(r)),
    {
        let d = was.def();
        assert forall|rows: Seq<RecordModel>| #[trigger] was.follows(rows) implies self.follows(
            rows.push(r),
        ) by {
            if self.exact() {
                lemma_exact_before(d, was.budgets(), r);
                assert(was.exact());
                lemma_arrival(d, rows, r, was.groups(), self.groups(), self.budgets(), base);
                lemma_paid_arrival(d, rows, r, was.budgets(), self.budgets());
            }
        }
    }
}

/// Charging never lowers what is spent nor restores exactness.
proof fn lemma_budgets_grow(d: Def, b: Seq<Budget>, r: RecordModel)
    requires
        forall|i: int|
            0 <= i < b.len() && (#[trigger] b[i]).exact ==> b[i].spent < EXACT_INTEGER_LIMIT,
    ensures
        spent_from(b, charged_all(d, b, r)),
{
    let c = charged_all(d, b, r);
    assert forall|i: int| 0 <= i < b.len() implies ((#[trigger] c[i]).exact ==> b[i].exact)
        && c[i].spent >= b[i].spent && (c[i].exact ==> c[i].spent < EXACT_INTEGER_LIMIT) by {
        assert(b[i].exact ==> b[i].spent < EXACT_INTEGER_LIMIT);
    }
}

/// A group stays within the budgets its change was charged to.
proof fn lemma_changed_within(d: Def, g: GroupModel, r: RecordModel, b: Seq<Budget>, arriving: bool)
    requires
        b.len() == d.aggs.len(),
        g.accs.len() == d.aggs.len(),
        within_budget(g, b),
        spent_from(b, charged_all(d, b, r)),
    ensures
        within_budget(group_after(d, g, r, charged_all(d, b, r), arriving), charged_all(d, b, r)),
        forall|i: int|
            0 <= i < g.accs.len() && charged_all(d, b, r)[i].exact ==> magnitude(
                (#[trigger] g.accs[i]).sum,
            ) < EXACT_INTEGER_LIMIT,
{
    let c = charged_all(d, b, r);
    let m = group_after(d, g, r, c, arriving);
    assert forall|i: int| 0 <= i < m.accs.len() && c[i].exact implies magnitude(
        (#[trigger] m.accs[i]).sum,
    ) <= c[i].spent by {
        assert(magnitude(g.accs[i].sum) <= b[i].spent);
        assert(m.accs[i] == acc_after(g.accs[i], share(d.aggs[i], r), c[i].exact, arriving));
    }
    assert forall|i: int| 0 <= i < g.accs.len() && c[i].exact implies magnitude(
        (#[trigger] g.accs[i]).sum,
    ) < EXACT_INTEGER_LIMIT by {
        assert(b[i].exact && c[i].spent >= b[i].spent);
    }
}

proof fn lemma_within_grows(g: GroupModel, a: Seq<Budget>, b: Seq<Budget>)
    requires
        g.accs.len() <= a.len(),
        within_budget(g, a),
        spent_from(a, b),
    ensures
        within_budget(g, b),
{
    assert forall|i: int| 0 <= i < g.accs.len() && b[i].exact implies magnitude(
        (#[trigger] g.accs[i]).sum,
    ) <= b[i].spent by {
        assert(a[i].exact && b[i].spent >= a[i].spent);
    }
}

/// Spending leaves groups sound.
proof fn lemma_sound_spend(g: Groups, a: Seq<Budget>, b: Seq<Budget>, width: nat, n: nat)
    requires
        sound(g, a, width, n),
        spent_from(a, b),
    ensures
        sound(g, b, width, n),
{
    assert forall|k: int| 0 <= k < g.len() implies {
        &&& (#[trigger] g[k]).1.rows > 0
        &&& g[k].0.len() == width
        &&& g[k].1.accs.len() == n
        &&& within_budget(g[k].1, b)
    } by {
        lemma_within_grows(g[k].1, a, b);
    }
}

proof fn lemma_exact_before(d: Def, budgets: Seq<Budget>, r: RecordModel)
    requires
        forall|i: int|
            0 <= i < charged_all(d, budgets, r).len() ==> (#[trigger] charged_all(
                d,
                budgets,
                r,
            )[i]).exact,
    ensures
        forall|i: int| 0 <= i < budgets.len() ==> (#[trigger] budgets[i]).exact,
{
    assert forall|i: int| 0 <= i < budgets.len() implies (#[trigger] budgets[i]).exact by {
        assert(charged_all(d, budgets, r)[i].exact);
    }
}

proof fn lemma_sound_replace(g: Groups, b: Seq<Budget>, width: nat, n: nat, at: int, m: GroupModel)
    requires
        sound(g, b, width, n),
        0 <= at < g.len(),
        m.rows > 0,
        m.accs.len() == n,
        within_budget(m, b),
    ensures
        sound(g.update(at, (g[at].0, m)), b, width, n),
{
    let u = g.update(at, (g[at].0, m));
    assert forall|i: int, j: int| 0 <= i < j < u.len() implies list_before(
        (#[trigger] u[i]).0,
        (#[trigger] u[j]).0,
    ) by {
        assert(u[i].0 == g[i].0 && u[j].0 == g[j].0);
    }
    assert forall|k: int| 0 <= k < u.len() implies {
        &&& (#[trigger] u[k]).1.rows > 0
        &&& u[k].0.len() == width
        &&& u[k].1.accs.len() == n
        &&& within_budget(u[k].1, b)
    } by {
        assert(g[k].0.len() == width);
    }
}

proof fn lemma_sound_insert(
    g: Groups,
    b: Seq<Budget>,
    width: nat,
    n: nat,
    at: int,
    key: Seq<ValueModel>,
    m: GroupModel,
)
    requires
        sound(g, b, width, n),
        0 <= at <= g.len(),
        forall|k: int| 0 <= k < at ==> list_before((#[trigger] g[k]).0, key),
        at < g.len() ==> !list_before(g[at].0, key) && g[at].0 != key,
        key.len() == width,
        m.rows > 0,
        m.accs.len() == n,
        within_budget(m, b),
    ensures
        sound(g.insert(at, (key, m)), b, width, n),
{
    let u = g.insert(at, (key, m));
    assert forall|i: int, j: int| 0 <= i < j < u.len() implies list_before(
        (#[trigger] u[i]).0,
        (#[trigger] u[j]).0,
    ) by {
        if j == at {
            assert(u[i] == g[i]);
        } else if i == at {
            assert(u[j] == g[j - 1]);
            lemma_list_before_total(key, g[at].0);
            if j - 1 > at {
                lemma_list_before_transitive(key, g[at].0, g[j - 1].0);
            }
        } else {
            let x = if i < at { i } else { i - 1 };
            let y = if j < at { j } else { j - 1 };
            assert(u[i] == g[x] && u[j] == g[y]);
        }
    }
    assert forall|k: int| 0 <= k < u.len() implies {
        &&& (#[trigger] u[k]).1.rows > 0
        &&& u[k].0.len() == width
        &&& u[k].1.accs.len() == n
        &&& within_budget(u[k].1, b)
    } by {
        if k != at {
            let x = if k < at { k } else { k - 1 };
            assert(u[k] == g[x]);
        }
    }
}

proof fn lemma_sound_remove(g: Groups, b: Seq<Budget>, width: nat, n: nat, at: int)
    requires
        sound(g, b, width, n),
        0 <= at < g.len(),
    ensures
        sound(g.remove(at), b, width, n),
{
    let u = g.remove(at);
    assert forall|i: int, j: int| 0 <= i < j < u.len() implies list_before(
        (#[trigger] u[i]).0,
        (#[trigger] u[j]).0,
    ) by {
        let x = if i < at { i } else { i + 1 };
        let y = if j < at { j } else { j + 1 };
        assert(u[i] == g[x] && u[j] == g[y]);
    }
    assert forall|k: int| 0 <= k < u.len() implies {
        &&& (#[trigger] u[k]).1.rows > 0
        &&& u[k].0.len() == width
        &&& u[k].1.accs.len() == n
        &&& within_budget(u[k].1, b)
    } by {
        let x = if k < at { k } else { k + 1 };
        assert(u[k] == g[x]);
    }
}

impl MaterializedView {
    proof fn lemma_remove_follows(&self, was: MaterializedView, r: RecordModel)
        requires
            was.wf(),
            self.def() == was.def(),
            self.exact@.len() == was.exact@.len(),
            self.overfull == was.overfull,
            self.budgets() == charged_all(was.def(), was.budgets(), r),
            find(was.groups(), group_key(was.def().group_by, r)) matches Some(g) && ({
                let left = group_after(was.def(), g, r, self.budgets(), false);
                find(self.groups(), group_key(was.def().group_by, r)) == if left.rows == 0 {
                    None
                } else {
                    Some(left)
                }
            }),
            forall|k: Seq<ValueModel>|
                k != group_key(was.def().group_by, r) ==> #[trigger] find(self.groups(), k) == find(
                    was.groups(),
                    k,
                ),
        ensures
            forall|rows: Seq<RecordModel>, j: int|
                #![trigger was.follows(rows), rows[j]]
                was.follows(rows) && 0 <= j < rows.len() && rows[j] == r ==> self.follows(
                    rows.remove(j),
                ),
    {
        let d = was.def();
        assert forall|rows: Seq<RecordModel>, j: int|
            #![trigger was.follows(rows), rows[j]]
            was.follows(rows) && 0 <= j < rows.len() && rows[j] == r implies self.follows(
            rows.remove(j),
        ) by {
            if self.exact() {
                lemma_exact_before(d, was.budgets(), r);
                assert(was.exact());
                lemma_departure(d, rows, j, was.groups(), self.groups(), self.budgets());
                lemma_budgets_grow(d, was.budgets(), r);
                lemma_paid_departure(d, rows, j, was.budgets(), self.budgets());
            }
        }
    }

    /// A row left. Nothing happens where its group is not held.
    pub fn remove(&mut self, rec: &Record)
        requires
            old(self).wf(),
        ensures
            final(self).wf(),
            final(self).source() == old(self).source(),
            final(self).def() == old(self).def(),
            final(self).overfull() == old(self).overfull(),
            departed(
                old(self).def(),
                old(self).groups(),
                rec.model(),
                final(self).budgets(),
                final(self).groups(),
            ),
            forall|key: Seq<ValueModel>|
                crowded(#[trigger] find(final(self).groups(), key)) ==> crowded(
                    find(old(self).groups(), key),
                ),
            find(old(self).groups(), group_key(old(self).def().group_by, rec.model())) is None
                ==> final(self).budgets() == old(self).budgets(),
            find(old(self).groups(), group_key(old(self).def().group_by, rec.model())) is Some
                ==> final(self).budgets() == charged_all(
                old(self).def(),
                old(self).budgets(),
                rec.model(),
            ),
            forall|rows: Seq<RecordModel>, j: int|
                #![trigger old(self).follows(rows), rows[j]]
                old(self).follows(rows) && 0 <= j < rows.len() && rows[j] == rec.model()
                    ==> final(self).follows(rows.remove(j)),
    {
        let ghost d = self.def();
        let ghost r = rec.model();
        let ghost before = self.groups();
        let ghost key_model = group_key(d.group_by, r);
        let key = self.key_of(rec);
        let shares = self.contributions(rec);
        let at = self.place(&key);
        proof {
            lemma_find_placed(before, key_model, at as int);
            lemma_in_order_distinct(before);
        }
        if !self.holds_at(at, &key) {
            proof {
                assert forall|rows: Seq<RecordModel>, j: int|
                    #![trigger old(self).follows(rows), rows[j]]
                    old(self).follows(rows) && 0 <= j < rows.len() && rows[j] == r
                        implies self.follows(rows.remove(j)) by {
                    if self.exact() {
                        assert(agrees(d, rows, key_model, find(before, key_model)));
                        lemma_tallies_remove(d, rows, j, key_model, 0);
                    }
                }
            }
            return;
        }
        let ghost old_budgets = self.budgets();
        self.charge(&shares, Ghost(r));
        let ghost budgets = self.budgets();
        let ghost width = self.group_by@.len();
        let ghost n = self.aggs@.len();
        let ghost base = before[at as int].1;
        assert(self.groups() == before);
        assert(base == self.groups@[at as int].1.model());
        proof {
            lemma_budgets_grow(d, old_budgets, r);
            lemma_sound_spend(before, old_budgets, budgets, width, n);
            lemma_changed_within(d, base, r, old_budgets, false);
        }
        let next = group_changed(
            &self.groups[at].1,
            &shares,
            &self.exact,
            false,
            Ghost(d),
            Ghost(r),
            Ghost(budgets),
        );
        let ghost m = next.model();
        if next.rows == 0 {
            self.groups.remove(at);
            let ghost after = before.remove(at as int);
            assert(self.groups() =~= after);
            assert(self.budgets() =~= budgets);
            proof {
                lemma_sound_remove(before, budgets, width, n, at as int);
                lemma_find_removed(before, at as int);
                assert forall|k: Seq<ValueModel>| k != key_model implies #[trigger] find(after, k)
                    == find(before, k) by {
                    lemma_find_remove(before, at as int, k);
                }
                assert forall|k: Seq<ValueModel>| crowded(#[trigger] find(after, k)) implies crowded(
                    find(before, k),
                ) by {
                    assert(k != key_model);
                }
                self.lemma_remove_follows(*old(self), r);
            }
        } else {
            self.groups.set(at, (key, next));
            let ghost after = before.update(at as int, (key_model, m));
            assert(self.groups() =~= after);
            assert(self.budgets() =~= budgets);
            proof {
                lemma_sound_replace(before, budgets, width, n, at as int, m);
                assert forall|k: Seq<ValueModel>| k != key_model implies #[trigger] find(after, k)
                    == find(before, k) by {
                    lemma_find_update(before, at as int, m, k);
                }
                assert forall|j: int| 0 <= j < at implies (#[trigger] after[j]).0 != key_model by {
                    assert(after[j] == before[j]);
                    lemma_list_before_total(key_model, key_model);
                }
                lemma_find_at(after, key_model, at as int);
                assert forall|k: Seq<ValueModel>| crowded(#[trigger] find(after, k)) implies crowded(
                    find(before, k),
                ) by {
                    if k == key_model {
                        if m.rows < u64::MAX {
                            let i = choose|i: int|
                                0 <= i < m.accs.len() && (#[trigger] m.accs[i]).count >= u64::MAX;
                            assert(base.accs[i].count >= u64::MAX);
                        }
                    } else {
                        assert(find(after, k) == find(before, k));
                    }
                }
                self.lemma_remove_follows(*old(self), r);
            }
        }
    }

    /// A row was replaced.
    pub fn update(&mut self, old_rec: &Record, new_rec: &Record)
        requires
            old(self).wf(),
        ensures
            final(self).wf(),
            final(self).source() == old(self).source(),
            final(self).def() == old(self).def(),
            final(self).budgets() == charged_all(
                old(self).def(),
                if find(
                    old(self).groups(),
                    group_key(old(self).def().group_by, old_rec.model()),
                ) is Some {
                    charged_all(old(self).def(), old(self).budgets(), old_rec.model())
                } else {
                    old(self).budgets()
                },
                new_rec.model(),
            ),
            final(self).overfull() ==> old(self).overfull() || crowded(
                find(old(self).groups(), group_key(old(self).def().group_by, new_rec.model())),
            ),
            forall|rows: Seq<RecordModel>, j: int|
                #![trigger old(self).follows(rows), rows[j]]
                old(self).follows(rows) && 0 <= j < rows.len() && rows[j] == old_rec.model()
                    ==> final(self).follows(rows.remove(j).push(new_rec.model())),
    {
        self.remove(old_rec);
        let ghost mid = *self;
        self.insert(new_rec);
        proof {
            assert forall|rows: Seq<RecordModel>, j: int|
                #![trigger old(self).follows(rows), rows[j]]
                old(self).follows(rows) && 0 <= j < rows.len() && rows[j] == old_rec.model()
                    implies self.follows(rows.remove(j).push(new_rec.model())) by {
                assert(mid.follows(rows.remove(j)));
            }
        }
    }

    pub fn group_count(&self) -> (n: usize)
        ensures
            n == self.groups().len(),
    {
        self.groups.len()
    }

    /// Roughly what this view costs in memory.
    pub fn memory_bytes(&self) -> (n: usize)
        ensures
            n == view_cost(
                self.groups().len(),
                self.def().group_by.len(),
                self.def().aggs.len(),
            ),
    {
        let keys: usize = mul_capped(self.group_by.len(), 32);
        let aggs: usize = mul_capped(self.aggs.len(), 8);
        let per: usize = add_capped(add_capped(32, keys), aggs);
        mul_capped(self.groups.len(), per)
    }
}

/// The cost of a view, no more than a `usize` holds.
pub open spec fn view_cost(groups: nat, keys: nat, aggs: nat) -> usize {
    capped(groups * capped(capped(32 + capped((keys * 32) as int)) + capped((aggs * 8) as int)))
}

// -- answers -----------------------------------------------------------------

/// One field of an answer. A mean is handed out as the numbers it divides.
#[derive(Debug, PartialEq, Eq)]
pub enum Cell {
    Value(Value),
    Mean { sum: i64, count: u64 },
}

/// What a [`Cell`] holds.
pub enum CellModel {
    Value(ValueModel),
    Mean { sum: int, count: nat },
}

impl View for Cell {
    type V = CellModel;

    open spec fn view(&self) -> CellModel {
        match self {
            Cell::Value(v) => CellModel::Value(v.model()),
            Cell::Mean { sum, count } => CellModel::Mean { sum: *sum as int, count: *count as nat },
        }
    }
}

/// One row of an answer: its position and its fields in order.
#[derive(Debug, PartialEq, Eq)]
pub struct AnswerRow {
    pub id: u64,
    pub cells: Vec<(String, Cell)>,
}

/// Fields by name, in order.
pub type Cells = Seq<(Seq<char>, CellModel)>;

pub open spec fn cell_models(s: Seq<(String, Cell)>) -> Cells {
    s.map_values(|c: (String, Cell)| (c.0@, c.1@))
}

impl View for AnswerRow {
    type V = (u64, Cells);

    open spec fn view(&self) -> (u64, Cells) {
        (self.id, cell_models(self.cells@))
    }
}

/// What an aggregate reports: a sum of nothing numeric is null, and so is a mean
/// of nothing.
pub open spec fn reported(kind: AggKind, a: AccModel) -> CellModel {
    match kind {
        AggKind::Count => CellModel::Value(ValueModel::U64(a.count as u64)),
        AggKind::Sum => CellModel::Value(
            if a.count > 0 {
                ValueModel::F64(float_of(a.sum))
            } else {
                ValueModel::Null
            },
        ),
        AggKind::Avg => if a.count > 0 {
            CellModel::Mean { sum: a.sum, count: a.count }
        } else {
            CellModel::Value(ValueModel::Null)
        },
        _ => CellModel::Value(ValueModel::Null),
    }
}

/// The fields of one group's row: the grouping first, the aggregates after.
pub open spec fn row_cells(d: Def, key: Seq<ValueModel>, accs: Seq<AccModel>) -> Cells {
    Seq::new(d.group_by.len(), |i: int| (d.group_by[i], CellModel::Value(key[i]))) + Seq::new(
        d.aggs.len(),
        |i: int| (d.aggs[i].output, reported(d.aggs[i].kind, accs[i])),
    )
}

/// The rows of an answer: one per group, in order. An ungrouped aggregate over
/// no rows is still one row saying so.
pub open spec fn answer_rows(d: Def, g: Groups) -> Seq<(u64, Cells)> {
    if g.len() == 0 && d.group_by.len() == 0 {
        seq![(0u64, row_cells(d, Seq::empty(), fresh_group(d).accs))]
    } else {
        Seq::new(g.len(), |i: int| (i as u64, row_cells(d, g[i].0, g[i].1.accs)))
    }
}

pub open spec fn row_models(s: Seq<AnswerRow>) -> Seq<(u64, Cells)> {
    s.map_values(|r: AnswerRow| r@)
}

impl MaterializedView {
    fn row(&self, id: u64, key: &Vec<Value>, accs: &Vec<Acc>) -> (r: AnswerRow)
        requires
            key@.len() == self.group_by@.len(),
            accs@.len() == self.aggs@.len(),
            forall|i: int|
                0 <= i < accs@.len() ==> -EXACT_INTEGER_LIMIT < (#[trigger] accs@[i]).sum
                    < EXACT_INTEGER_LIMIT,
        ensures
            r@ == (
                id,
                row_cells(self.def(), models(key@), accs@.map_values(|a: Acc| a.model())),
            ),
    {
        let ghost d = self.def();
        let ghost acc_models = accs@.map_values(|a: Acc| a.model());
        let ghost want = row_cells(d, models(key@), acc_models);
        let mut cells: Vec<(String, Cell)> = Vec::new();
        let mut i: usize = 0;
        while i < self.group_by.len()
            invariant
                i <= self.group_by.len(),
                key@.len() == self.group_by@.len(),
                d == self.def(),
                want == row_cells(d, models(key@), acc_models),
                cells@.len() == i,
                forall|k: int|
                    0 <= k < i ==> ((#[trigger] cells@[k]).0@, cells@[k].1@) == want[k],
            decreases self.group_by.len() - i,
        {
            cells.push((self.group_by[i].clone(), Cell::Value(key[i].dup())));
            i += 1;
        }
        let mut j: usize = 0;
        while j < self.aggs.len()
            invariant
                j <= self.aggs.len(),
                accs@.len() == self.aggs@.len(),
                d == self.def(),
                d.group_by.len() == self.group_by@.len(),
                d.aggs.len() == self.aggs@.len(),
                acc_models == accs@.map_values(|a: Acc| a.model()),
                want == row_cells(d, models(key@), acc_models),
                cells@.len() == self.group_by@.len() + j,
                forall|k: int|
                    0 <= k < accs@.len() ==> -EXACT_INTEGER_LIMIT < (#[trigger] accs@[k]).sum
                        < EXACT_INTEGER_LIMIT,
                forall|k: int|
                    0 <= k < cells@.len() ==> ((#[trigger] cells@[k]).0@, cells@[k].1@) == want[k],
            decreases self.aggs.len() - j,
        {
            let a = &accs[j];
            assert(acc_models[j as int] == a.model());
            assert(d.aggs[j as int] == self.aggs@[j as int]@);
            let cell = match self.aggs[j].kind {
                AggKind::Count => Cell::Value(Value::U64(a.count)),
                AggKind::Sum => if a.count > 0 {
                    Cell::Value(Value::F64(float_bits(a.sum)))
                } else {
                    Cell::Value(Value::Null)
                },
                AggKind::Avg => if a.count > 0 {
                    Cell::Mean { sum: a.sum, count: a.count }
                } else {
                    Cell::Value(Value::Null)
                },
                _ => Cell::Value(Value::Null),
            };
            assert(want[self.group_by@.len() + j] == (
                d.aggs[j as int].output,
                reported(d.aggs[j as int].kind, acc_models[j as int]),
            ));
            cells.push((self.aggs[j].output.clone(), cell));
            j += 1;
        }
        assert(cell_models(cells@) =~= want);
        AnswerRow { id, cells }
    }

    /// The answer, in the form a scanning aggregate produces it.
    pub fn rows(&self) -> (out: Vec<AnswerRow>)
        requires
            self.wf(),
            self.exact(),
        ensures
            row_models(out@) == answer_rows(self.def(), self.groups()),
    {
        let ghost d = self.def();
        let ghost g = self.groups();
        let mut out: Vec<AnswerRow> = Vec::new();
        if self.groups.len() == 0 && self.group_by.len() == 0 {
            let base = fresh(self.aggs.len(), Ghost(d));
            let none: Vec<Value> = Vec::new();
            assert(base.model().accs == base.accs@.map_values(|a: Acc| a.model()));
            assert(base.accs@.len() == d.aggs.len());
            assert forall|i: int| 0 <= i < base.accs@.len() implies (#[trigger] base.accs@[i]).sum
                == 0 by {
                assert(base.model().accs[i] == base.accs@[i].model());
            }
            out.push(self.row(0, &none, &base.accs));
            assert(models(none@) =~= Seq::empty());
            assert(row_models(out@) =~= answer_rows(d, g));
            return out;
        }
        let mut i: usize = 0;
        while i < self.groups.len()
            invariant
                i <= self.groups.len(),
                self.wf(),
                self.exact(),
                d == self.def(),
                g == self.groups(),
                g.len() == self.groups@.len(),
                out@.len() == i,
                forall|k: int|
                    0 <= k < i ==> (#[trigger] out@[k])@ == (
                        k as u64,
                        row_cells(d, g[k].0, g[k].1.accs),
                    ),
            decreases self.groups.len() - i,
        {
            let e = &self.groups[i];
            let ghost m = g[i as int];
            assert(m.1 == e.1.model() && m.0 == models(e.0@));
            assert(m.1.accs == e.1.accs@.map_values(|a: Acc| a.model()));
            assert forall|k: int| 0 <= k < e.1.accs@.len() implies -EXACT_INTEGER_LIMIT < (
            #[trigger] e.1.accs@[k]).sum < EXACT_INTEGER_LIMIT by {
                assert(m.1.accs[k] == e.1.accs@[k].model());
                assert(within_budget(m.1, self.budgets()));
                assert(self.budgets()[k].exact);
            }
            out.push(self.row(i as u64, &e.0, &e.1.accs));
            i += 1;
        }
        assert(row_models(out@) =~= answer_rows(d, g));
        out
    }
}

proof fn lemma_same_keys(a: Groups, b: Groups)
    requires
        keys_in_order(a),
        keys_in_order(b),
        forall|k: Seq<ValueModel>| (#[trigger] find(a, k) is Some) == (find(b, k) is Some),
    ensures
        a.len() == b.len(),
        forall|i: int| 0 <= i < a.len() ==> (#[trigger] a[i]).0 == b[i].0,
    decreases a.len(),
{
    lemma_in_order_distinct(a);
    lemma_in_order_distinct(b);
    if a.len() == 0 {
        if b.len() > 0 {
            assert(find(b, b[0].0) is Some);
            assert(find(a, b[0].0) is None);
        }
    } else {
        assert(find(a, a[0].0) is Some);
        if b.len() == 0 {
            assert(find(b, a[0].0) is None);
        } else {
            assert(find(b, b[0].0) is Some);
            let i = lemma_find_some(b, a[0].0);
            assert(find(a, b[0].0) is Some);
            let j = lemma_find_some(a, b[0].0);
            lemma_list_before_total(a[0].0, b[0].0);
            if i > 0 {
                assert(list_before(b[0].0, b[i].0));
                if j > 0 {
                    assert(list_before(a[0].0, a[j].0));
                }
            }
            let x = a.drop_first();
            let y = b.drop_first();
            assert(a.remove(0) =~= x);
            assert(b.remove(0) =~= y);
            lemma_sound_tail(a);
            lemma_sound_tail(b);
            lemma_find_removed(a, 0);
            lemma_find_removed(b, 0);
            assert forall|k: Seq<ValueModel>| (#[trigger] find(x, k) is Some) == (find(
                y,
                k,
            ) is Some) by {
                assert((find(a, k) is Some) == (find(b, k) is Some));
                if k != a[0].0 {
                    lemma_find_remove(a, 0, k);
                    lemma_find_remove(b, 0, k);
                }
            }
            lemma_same_keys(x, y);
            assert forall|n: int| 0 <= n < a.len() implies (#[trigger] a[n]).0 == b[n].0 by {
                if n > 0 {
                    assert(x[n - 1] == a[n] && y[n - 1] == b[n]);
                }
            }
        }
    }
}

proof fn lemma_sound_tail(g: Groups)
    requires
        keys_in_order(g),
        g.len() > 0,
    ensures
        keys_in_order(g.drop_first()),
{
    let t = g.drop_first();
    assert forall|i: int, j: int| 0 <= i < j < t.len() implies list_before(
        (#[trigger] t[i]).0,
        (#[trigger] t[j]).0,
    ) by {
        assert(t[i] == g[i + 1] && t[j] == g[j + 1]);
    }
}

impl MaterializedView {
    /// A view rebuilt from some rows, in whatever order, is exact wherever a view that
    /// was maintained through arrivals and departures and follows them is. What the
    /// rebuilt view is comes with being built: its budgets are those of the rows, and no
    /// counter had to turn a row away.
    pub proof fn a_rebuilt_view_is_as_exact(
        a: MaterializedView,
        b: MaterializedView,
        rows: Seq<RecordModel>,
        others: Seq<RecordModel>,
    )
        requires
            a.wf(),
            a.def() == b.def(),
            a.exact(),
            a.follows(rows),
            rows.to_multiset() == others.to_multiset(),
            b.budgets() == budgets_over(b.def(), others),
            !b.overfull(),
        ensures
            b.exact(),
    {
        let d = a.def();
        assert(a.budgets().len() == d.aggs.len());
        lemma_budgets_width(d, others);
        assert forall|i: int| 0 <= i < b.budgets().len() implies (#[trigger] b.budgets()[i]).exact by {
            assert(a.budgets()[i].exact);
            assert(paid(d, rows, a.budgets()[i], i));
            lemma_cost_of_any_order(d, rows, others, i);
            lemma_budget_over(d, others, i);
        }
    }

    /// A maintained view equals a rebuilt one. However an exact view came to follow some
    /// rows, by arrivals and departures in any order, it answers as the view rebuilt from
    /// those rows in whatever order does.
    pub proof fn a_maintained_view_equals_a_rebuilt_one(
        a: MaterializedView,
        b: MaterializedView,
        rows: Seq<RecordModel>,
        others: Seq<RecordModel>,
    )
        requires
            a.wf(),
            b.wf(),
            a.def() == b.def(),
            a.exact(),
            rows.to_multiset() == others.to_multiset(),
            a.follows(rows),
            b.follows(others),
            b.budgets() == budgets_over(b.def(), others),
            !b.overfull(),
        ensures
            b.exact(),
            answer_rows(a.def(), a.groups()) == answer_rows(b.def(), b.groups()),
    {
        Self::a_rebuilt_view_is_as_exact(a, b, rows, others);
        Self::exact_views_of_the_same_rows_answer_alike(a, b, rows, others);
    }

    /// Exact views of the same rows answer alike, however each came to follow them.
    pub proof fn exact_views_of_the_same_rows_answer_alike(
        a: MaterializedView,
        b: MaterializedView,
        rows: Seq<RecordModel>,
        others: Seq<RecordModel>,
    )
        requires
            a.wf(),
            b.wf(),
            a.def() == b.def(),
            a.exact(),
            b.exact(),
            rows.to_multiset() == others.to_multiset(),
            a.follows(rows),
            b.follows(others),
        ensures
            answer_rows(a.def(), a.groups()) == answer_rows(b.def(), b.groups()),
    {
        let d = a.def();
        let x = a.groups();
        let y = b.groups();
        assert forall|k: Seq<ValueModel>| (#[trigger] find(x, k) is Some) == (find(
            y,
            k,
        ) is Some) by {
            assert(agrees(d, rows, k, find(x, k)));
            assert(agrees(d, others, k, find(y, k)));
            lemma_tallies_of_any_order(d, rows, others, k, 0);
        }
        lemma_same_keys(x, y);
        lemma_in_order_distinct(x);
        lemma_in_order_distinct(y);
        assert forall|i: int| 0 <= i < x.len() implies (#[trigger] x[i]).0 == y[i].0
            && x[i].1.accs =~= y[i].1.accs by {
            let k = x[i].0;
            lemma_find_at(x, k, i);
            assert(y[i].0 == k);
            lemma_find_at(y, k, i);
            assert(agrees(d, rows, k, find(x, k)));
            assert(agrees(d, others, k, find(y, k)));
            assert forall|n: int| 0 <= n < d.aggs.len() implies #[trigger] x[i].1.accs[n]
                == y[i].1.accs[n] by {
                lemma_tallies_of_any_order(d, rows, others, k, n);
                assert(y[i].1.accs[n].count == count_in(d, others, k, n));
            }
        }
        assert(answer_rows(d, x) =~= answer_rows(d, y));
    }
}

/// What every view satisfies: its groups stand in order, each with a total for every
/// aggregate.
pub proof fn lemma_view_in_order(v: MaterializedView)
    requires
        v.wf(),
    ensures
        keys_in_order(v.groups()),
        distinct_keys(v.groups()),
        forall|i: int|
            0 <= i < v.groups().len() ==> (#[trigger] v.groups()[i]).1.accs.len()
                == v.def().aggs.len() && v.groups()[i].0.len() == v.def().group_by.len(),
{
    lemma_in_order_distinct(v.groups());
    assert(v.def().aggs.len() == v.aggs@.len() && v.def().group_by.len() == v.group_by@.len());
}

/// The tallies of rows do not depend on their order.
proof fn lemma_tallies_of_any_order(
    d: Def,
    rows: Seq<RecordModel>,
    others: Seq<RecordModel>,
    key: Seq<ValueModel>,
    i: int,
)
    requires
        rows.to_multiset() == others.to_multiset(),
    ensures
        rows_in(d, rows, key) == rows_in(d, others, key),
        count_in(d, rows, key, i) == count_in(d, others, key, i),
        sum_in(d, rows, key, i) == sum_in(d, others, key, i),
    decreases rows.len(),
{
    rows.to_multiset_ensures();
    others.to_multiset_ensures();
    if rows.len() > 0 {
        let r = rows.last();
        let fewer = rows.drop_last();
        assert(rows.contains(r));
        assert(rows.to_multiset().count(r) > 0);
        assert(others.contains(r));
        let j = choose|j: int| 0 <= j < others.len() && others[j] == r;
        assert(rows.remove(rows.len() - 1) =~= fewer);
        assert(fewer.to_multiset() =~= others.remove(j).to_multiset());
        lemma_tallies_of_any_order(d, fewer, others.remove(j), key, i);
        lemma_tallies_remove(d, others, j, key, i);
    }
}

// -- the set of views --------------------------------------------------------

/// The set of views the database is keeping.
pub struct MaterializedViews {
    enabled: bool,
    views: Vec<MaterializedView>,
}

/// The view a query asks for, if it is one a view can serve: an aggregate that
/// can be maintained, directly over a scan. A filter disqualifies it, for a view
/// holds totals and not rows.
pub open spec fn definition(op: OpModel) -> Option<(Seq<char>, Def)> {
    match op {
        OpModel::Aggregate { input, group_by, aggs } => match *input {
            OpModel::Scan { collection } => if maintainable(aggs) {
                Some((collection, Def { group_by, aggs }))
            } else {
                None
            },
            _ => None,
        },
        _ => None,
    }
}

/// The first view of a collection and definition.
pub open spec fn first_of(
    views: Seq<MaterializedView>,
    collection: Seq<char>,
    d: Def,
) -> Option<MaterializedView>
    decreases views.len(),
{
    if views.len() == 0 {
        None
    } else if views[0].is_of(collection, d) {
        Some(views[0])
    } else {
        first_of(views.drop_first(), collection, d)
    }
}

/// The view that is of what `op` asks for.
pub open spec fn view_for(views: Seq<MaterializedView>, op: OpModel) -> Option<MaterializedView> {
    match definition(op) {
        None => None,
        Some((c, d)) => first_of(views, c, d),
    }
}

/// The budgets of a view after every one of `rows` arrived.
pub open spec fn budgets_over(d: Def, rows: Seq<RecordModel>) -> Seq<Budget>
    decreases rows.len(),
{
    if rows.len() == 0 {
        Seq::new(d.aggs.len(), |i: int| Budget { exact: true, spent: 0 })
    } else {
        charged_all(d, budgets_over(d, rows.drop_last()), rows.last())
    }
}

proof fn lemma_budgets_width(d: Def, rows: Seq<RecordModel>)
    ensures
        budgets_over(d, rows).len() == d.aggs.len(),
    decreases rows.len(),
{
    if rows.len() > 0 {
        lemma_budgets_width(d, rows.drop_last());
    }
}

/// Whether no counter of a group is past `n`.
spec fn counted_to(g: Option<GroupModel>, n: int) -> bool {
    g matches Some(m) ==> m.rows <= n && forall|i: int|
        0 <= i < m.accs.len() ==> (#[trigger] m.accs[i]).count <= n
}

proof fn lemma_arrival_counted(
    d: Def,
    before: Groups,
    r: RecordModel,
    budgets: Seq<Budget>,
    after: Groups,
    n: int,
)
    requires
        n >= 0,
        arrived(d, before, r, budgets, after),
        forall|k: Seq<ValueModel>| counted_to(#[trigger] find(before, k), n),
    ensures
        forall|k: Seq<ValueModel>| counted_to(#[trigger] find(after, k), n + 1),
{
    let key = group_key(d.group_by, r);
    assert forall|k: Seq<ValueModel>| counted_to(#[trigger] find(after, k), n + 1) by {
        assert(counted_to(find(before, k), n));
        if !crowded(find(before, key)) && k == key {
            let m = find(after, k)->0;
            assert forall|i: int| 0 <= i < m.accs.len() implies (#[trigger] m.accs[i]).count <= n
                + 1 by {
                if find(before, key) is Some {
                    assert(find(before, key)->0.accs[i].count <= n);
                }
            }
        }
    }
}

impl MaterializedView {
    /// A view of `rows`, each of them arriving in turn.
    fn build(
        collection: &str,
        group_by: &Vec<String>,
        aggs: &Vec<Agg>,
        rows: &Vec<Record>,
    ) -> (v: MaterializedView)
        ensures
            v.wf(),
            v.is_of(collection@, Def { group_by: texts(group_by@), aggs: agg_models(aggs@) }),
            !v.overfull(),
            v.budgets() == budgets_over(v.def(), record_models(rows@)),
            v.follows(record_models(rows@)),
    {
        let ghost all = record_models(rows@);
        let mut v = MaterializedView::new(collection, group_by, aggs);
        let ghost d = v.def();
        let mut i: usize = 0;
        assert(all.take(0) =~= Seq::empty());
        assert(v.budgets() =~= budgets_over(d, Seq::empty()));
        assert forall|k: Seq<ValueModel>| counted_to(#[trigger] find(v.groups(), k), 0) by {}
        while i < rows.len()
            invariant
                i <= rows.len(),
                all == record_models(rows@),
                v.wf(),
                v.source() == collection@,
                v.def() == d,
                !v.overfull(),
                v.budgets() == budgets_over(d, all.take(i as int)),
                v.follows(all.take(i as int)),
                forall|k: Seq<ValueModel>| counted_to(#[trigger] find(v.groups(), k), i as int),
            decreases rows.len() - i,
        {
            let ghost was = v.groups();
            let ghost r = rows@[i as int].model();
            let ghost key = group_key(d.group_by, r);
            assert(counted_to(find(was, key), i as int));
            v.insert(&rows[i]);
            proof {
                lemma_arrival_counted(d, was, r, v.budgets(), v.groups(), i as int);
                assert(all.take(i + 1) =~= all.take(i as int).push(r));
                assert(all.take(i + 1).drop_last() =~= all.take(i as int));
            }
            i += 1;
        }
        assert(all.take(i as int) =~= all);
        v
    }
}

impl MaterializedViews {
    pub closed spec fn views(&self) -> Seq<MaterializedView> {
        self.views@
    }

    pub closed spec fn enabled(&self) -> bool {
        self.enabled
    }

    /// Every view is sound, and there is none while views are switched off.
    pub open spec fn wf(&self) -> bool {
        &&& forall|i: int| 0 <= i < self.views().len() ==> (#[trigger] self.views()[i]).wf()
        &&& !self.enabled() ==> self.views().len() == 0
    }

    /// No views, and none asked for.
    pub fn new() -> (r: MaterializedViews)
        ensures
            r.wf(),
            !r.enabled(),
            r.views() == Seq::<MaterializedView>::empty(),
    {
        MaterializedViews { enabled: false, views: Vec::new() }
    }

    /// Switch views on or off. Switching them off drops them all.
    pub fn set_enabled(&mut self, on: bool)
        requires
            old(self).wf(),
        ensures
            final(self).wf(),
            final(self).enabled() == on,
            final(self).views() == if on {
                old(self).views()
            } else {
                Seq::empty()
            },
    {
        self.enabled = on;
        if !on {
            self.views.clear();
        }
        assert forall|i: int| 0 <= i < self.views().len() implies (#[trigger] self.views()[i]).wf() by {
            assert(old(self).views()[i].wf());
        }
    }

    pub fn is_enabled(&self) -> (r: bool)
        ensures
            r == self.enabled(),
    {
        self.enabled
    }

    pub fn len(&self) -> (n: usize)
        ensures
            n == self.views().len(),
    {
        self.views.len()
    }

    pub fn is_empty(&self) -> (r: bool)
        ensures
            r == (self.views().len() == 0),
    {
        self.views.len() == 0
    }

    /// Take a query apart into a view definition, if it is one a view can serve.
    pub fn definition_of(op: &LogicalOp) -> (r: Option<(&str, &Vec<String>, &Vec<Agg>)>)
        ensures
            match definition(op.model()) {
                Some((c, d)) => r matches Some((name, group_by, aggs)) && name@ == c && d == (Def {
                    group_by: texts(group_by@),
                    aggs: agg_models(aggs@),
                }),
                None => r is None,
            },
    {
        proof {
            reveal_with_fuel(LogicalOp::model, 2);
        }
        match op {
            LogicalOp::Aggregate { input, group_by, aggs } => match &**input {
                LogicalOp::Scan { collection } => if is_maintainable(aggs) {
                    Some((collection.as_str(), group_by, aggs))
                } else {
                    None
                },
                _ => None,
            },
            _ => None,
        }
    }

    fn find_view(&self, op: &LogicalOp) -> (r: Option<usize>)
        ensures
            match r {
                Some(i) => i < self.views().len() && view_for(self.views(), op.model()) == Some(
                    self.views()[i as int],
                ),
                None => view_for(self.views(), op.model()) is None,
            },
    {
        match Self::definition_of(op) {
            None => None,
            Some((collection, group_by, aggs)) => {
                let ghost d = Def { group_by: texts(group_by@), aggs: agg_models(aggs@) };
                let ghost all = self.views@;
                assert(all.skip(0) =~= all);
                let mut i: usize = 0;
                while i < self.views.len()
                    invariant
                        i <= self.views.len(),
                        all == self.views@,
                        definition(op.model()) == Some((collection@, d)),
                        d == (Def { group_by: texts(group_by@), aggs: agg_models(aggs@) }),
                        first_of(all, collection@, d) == first_of(
                            all.skip(i as int),
                            collection@,
                            d,
                        ),
                    decreases self.views.len() - i,
                {
                    assert(all.skip(i as int)[0] == all[i as int]);
                    assert(all.skip(i as int).drop_first() =~= all.skip(i + 1));
                    if self.views[i].matches(collection, group_by, aggs) {
                        return Some(i);
                    }
                    i += 1;
                }
                None
            },
        }
    }

    /// The answer to a query, where an exact view of it is kept.
    pub fn answer(&self, op: &LogicalOp) -> (r: Option<Vec<AnswerRow>>)
        requires
            self.wf(),
        ensures
            match view_for(self.views(), op.model()) {
                Some(v) if self.enabled() && v.exact() => r matches Some(rows) && row_models(rows@)
                    == answer_rows(v.def(), v.groups()),
                _ => r is None,
            },
    {
        if !self.enabled {
            return None;
        }
        match self.find_view(op) {
            None => None,
            Some(i) => {
                assert(self.views()[i as int].wf());
                if self.views[i].is_exact() {
                    Some(self.views[i].rows())
                } else {
                    None
                }
            },
        }
    }

    pub fn has_view_for(&self, op: &LogicalOp) -> (r: bool)
        ensures
            r == (view_for(self.views(), op.model()) is Some),
    {
        self.find_view(op).is_some()
    }

    /// Build a view for this query from the collection's rows. Returns whether
    /// one was built: not while views are switched off, not for a query no view
    /// can serve, and not a second time.
    pub fn materialize(&mut self, op: &LogicalOp, rows: &Vec<Record>) -> (built: bool)
        requires
            old(self).wf(),
        ensures
            final(self).wf(),
            final(self).enabled() == old(self).enabled(),
            built == (old(self).enabled() && definition(op.model()) is Some && view_for(
                old(self).views(),
                op.model(),
            ) is None),
            !built ==> final(self).views() == old(self).views(),
            built ==> {
                let v = final(self).views().last();
                let (c, d) = definition(op.model())->0;
                &&& final(self).views() == old(self).views().push(v)
                &&& v.is_of(c, d)
                &&& !v.overfull()
                &&& v.budgets() == budgets_over(d, record_models(rows@))
                &&& v.follows(record_models(rows@))
            },
    {
        if !self.enabled {
            return false;
        }
        if self.find_view(op).is_some() {
            return false;
        }
        match Self::definition_of(op) {
            None => false,
            Some((collection, group_by, aggs)) => {
                let v = MaterializedView::build(collection, group_by, aggs, rows);
                self.views.push(v);
                true
            },
        }
    }

    /// A row arrived in a collection.
    pub fn on_insert(&mut self, collection: &str, rec: &Record)
        requires
            old(self).wf(),
        ensures
            final(self).wf(),
            final(self).enabled() == old(self).enabled(),
            final(self).views().len() == old(self).views().len(),
            forall|i: int|
                0 <= i < old(self).views().len() ==> after_arrival(
                    #[trigger] old(self).views()[i],
                    final(self).views()[i],
                    collection@,
                    rec.model(),
                ),
    {
        let mut i: usize = 0;
        while i < self.views.len()
            invariant
                i <= self.views@.len(),
                self.wf(),
                self.enabled == old(self).enabled,
                self.views@.len() == old(self).views@.len(),
                forall|k: int|
                    0 <= k < i ==> after_arrival(
                        #[trigger] old(self).views@[k],
                        self.views@[k],
                        collection@,
                        rec.model(),
                    ),
                forall|k: int| i <= k < self.views@.len() ==> self.views@[k] == old(self).views@[k],
            decreases self.views@.len() - i,
        {
            assert(self.views()[i as int].wf());
            if str_eq(self.views[i].collection.as_str(), collection) {
                self.views[i].insert(rec);
            }
            i += 1;
        }
    }
}

/// What an arrival in `collection` makes of a view.
pub open spec fn after_arrival(
    was: MaterializedView,
    is: MaterializedView,
    collection: Seq<char>,
    r: RecordModel,
) -> bool {
    if was.source() == collection {
        &&& is.source() == was.source()
        &&& is.def() == was.def()
        &&& is.budgets() == charged_all(was.def(), was.budgets(), r)
        &&& is.overfull() == (was.overfull() || crowded(
            find(was.groups(), group_key(was.def().group_by, r)),
        ))
        &&& arrived(was.def(), was.groups(), r, is.budgets(), is.groups())
        &&& forall|rows: Seq<RecordModel>| #[trigger]
            was.follows(rows) ==> is.follows(rows.push(r))
    } else {
        is == was
    }
}

/// What a departure from `collection` makes of a view.
pub open spec fn after_departure(
    was: MaterializedView,
    is: MaterializedView,
    collection: Seq<char>,
    r: RecordModel,
) -> bool {
    if was.source() == collection {
        &&& is.source() == was.source()
        &&& is.def() == was.def()
        &&& is.overfull() == was.overfull()
        &&& is.budgets() == if find(was.groups(), group_key(was.def().group_by, r)) is Some {
            charged_all(was.def(), was.budgets(), r)
        } else {
            was.budgets()
        }
        &&& departed(was.def(), was.groups(), r, is.budgets(), is.groups())
        &&& forall|rows: Seq<RecordModel>, j: int|
            #![trigger was.follows(rows), rows[j]]
            was.follows(rows) && 0 <= j < rows.len() && rows[j] == r ==> is.follows(rows.remove(j))
    } else {
        is == was
    }
}

/// What replacing a row of `collection` makes of a view.
pub open spec fn after_replacement(
    was: MaterializedView,
    is: MaterializedView,
    collection: Seq<char>,
    left: RecordModel,
    came: RecordModel,
) -> bool {
    if was.source() == collection {
        &&& is.source() == was.source()
        &&& is.def() == was.def()
        &&& is.budgets() == charged_all(
            was.def(),
            if find(was.groups(), group_key(was.def().group_by, left)) is Some {
                charged_all(was.def(), was.budgets(), left)
            } else {
                was.budgets()
            },
            came,
        )
        &&& is.overfull() ==> was.overfull() || crowded(
            find(was.groups(), group_key(was.def().group_by, came)),
        )
        &&& forall|rows: Seq<RecordModel>, j: int|
            #![trigger was.follows(rows), rows[j]]
            was.follows(rows) && 0 <= j < rows.len() && rows[j] == left ==> is.follows(
                rows.remove(j).push(came),
            )
    } else {
        is == was
    }
}

/// The views of other collections than `collection`.
pub open spec fn views_elsewhere(
    views: Seq<MaterializedView>,
    collection: Seq<char>,
) -> Seq<MaterializedView>
    decreases views.len(),
{
    if views.len() == 0 {
        Seq::empty()
    } else if views.last().source() == collection {
        views_elsewhere(views.drop_last(), collection)
    } else {
        views_elsewhere(views.drop_last(), collection).push(views.last())
    }
}

/// What all views cost, no more than a `usize` holds.
pub open spec fn views_cost(views: Seq<MaterializedView>) -> usize
    decreases views.len(),
{
    if views.len() == 0 {
        0
    } else {
        let v = views.last();
        capped(
            views_cost(views.drop_last()) + view_cost(
                v.groups().len(),
                v.def().group_by.len(),
                v.def().aggs.len(),
            ),
        )
    }
}

/// One view in words.
pub open spec fn view_text(v: MaterializedView) -> Seq<char> {
    v.source() + " grouped by ["@ + joined(v.def().group_by, ", "@) + "] -> "@ + dec_text(
        v.groups().len(),
    ) + " groups"@
}

impl MaterializedViews {
    /// A row left a collection.
    pub fn on_remove(&mut self, collection: &str, rec: &Record)
        requires
            old(self).wf(),
        ensures
            final(self).wf(),
            final(self).enabled() == old(self).enabled(),
            final(self).views().len() == old(self).views().len(),
            forall|i: int|
                0 <= i < old(self).views().len() ==> after_departure(
                    #[trigger] old(self).views()[i],
                    final(self).views()[i],
                    collection@,
                    rec.model(),
                ),
    {
        let mut i: usize = 0;
        while i < self.views.len()
            invariant
                i <= self.views@.len(),
                self.wf(),
                self.enabled == old(self).enabled,
                self.views@.len() == old(self).views@.len(),
                forall|k: int|
                    0 <= k < i ==> after_departure(
                        #[trigger] old(self).views@[k],
                        self.views@[k],
                        collection@,
                        rec.model(),
                    ),
                forall|k: int| i <= k < self.views@.len() ==> self.views@[k] == old(self).views@[k],
            decreases self.views@.len() - i,
        {
            assert(self.views()[i as int].wf());
            if str_eq(self.views[i].collection.as_str(), collection) {
                self.views[i].remove(rec);
            }
            i += 1;
        }
    }

    /// A row of a collection was replaced.
    pub fn on_update(&mut self, collection: &str, old_rec: &Record, new_rec: &Record)
        requires
            old(self).wf(),
        ensures
            final(self).wf(),
            final(self).enabled() == old(self).enabled(),
            final(self).views().len() == old(self).views().len(),
            forall|i: int|
                0 <= i < old(self).views().len() ==> after_replacement(
                    #[trigger] old(self).views()[i],
                    final(self).views()[i],
                    collection@,
                    old_rec.model(),
                    new_rec.model(),
                ),
    {
        let mut i: usize = 0;
        while i < self.views.len()
            invariant
                i <= self.views@.len(),
                self.wf(),
                self.enabled == old(self).enabled,
                self.views@.len() == old(self).views@.len(),
                forall|k: int|
                    0 <= k < i ==> after_replacement(
                        #[trigger] old(self).views@[k],
                        self.views@[k],
                        collection@,
                        old_rec.model(),
                        new_rec.model(),
                    ),
                forall|k: int| i <= k < self.views@.len() ==> self.views@[k] == old(self).views@[k],
            decreases self.views@.len() - i,
        {
            assert(self.views()[i as int].wf());
            if str_eq(self.views[i].collection.as_str(), collection) {
                self.views[i].update(old_rec, new_rec);
            }
            i += 1;
        }
    }

    /// Whether any view watches this collection, so that a caller knows whether
    /// the old record has to be read before a write overwrites it.
    pub fn watches(&self, collection: &str) -> (r: bool)
        ensures
            r == (self.enabled() && exists|i: int|
                0 <= i < self.views().len() && (#[trigger] self.views()[i]).source()
                    == collection@),
    {
        if !self.enabled {
            return false;
        }
        let mut i: usize = 0;
        while i < self.views.len()
            invariant
                i <= self.views.len(),
                self.enabled,
                forall|k: int| 0 <= k < i ==> (#[trigger] self.views()[k]).source() != collection@,
            decreases self.views.len() - i,
        {
            if str_eq(self.views[i].collection.as_str(), collection) {
                assert(self.views()[i as int].source() == collection@);
                return true;
            }
            i += 1;
        }
        false
    }

    /// Drop every view of a collection.
    pub fn clear_collection(&mut self, collection: &str)
        requires
            old(self).wf(),
        ensures
            final(self).wf(),
            final(self).enabled() == old(self).enabled(),
            final(self).views() == views_elsewhere(old(self).views(), collection@),
    {
        let ghost all = self.views@;
        let mut at: usize = 0;
        let mut seen: usize = 0;
        let total: usize = self.views.len();
        assert(views_elsewhere(all.take(0), collection@) + all.skip(0) =~= all);
        while seen < total
            invariant
                at <= seen <= total == all.len(),
                self.enabled == old(self).enabled,
                old(self).wf(),
                all == old(self).views@,
                at == views_elsewhere(all.take(seen as int), collection@).len(),
                self.views@ == views_elsewhere(all.take(seen as int), collection@) + all.skip(
                    seen as int,
                ),
                self.wf(),
            decreases total - seen,
        {
            let ghost kept = views_elsewhere(all.take(seen as int), collection@);
            assert(all.take(seen + 1).drop_last() =~= all.take(seen as int));
            assert(self.views@[at as int] == all[seen as int]);
            let ghost before = *self;
            if str_eq(self.views[at].collection.as_str(), collection) {
                self.views.remove(at);
                assert(self.views@ =~= kept + all.skip(seen + 1));
                assert forall|i: int| 0 <= i < self.views().len() implies (
                #[trigger] self.views()[i]).wf() by {
                    let j = if i < at { i } else { i + 1 };
                    assert(self.views@[i] == before.views()[j]);
                    assert(before.views()[j].wf());
                }
            } else {
                assert(self.views@ =~= kept.push(all[seen as int]) + all.skip(seen + 1));
                at += 1;
            }
            seen += 1;
        }
        assert(all.take(seen as int) =~= all);
        assert(self.views@ =~= views_elsewhere(all, collection@));
    }

    /// Roughly what the views cost in memory.
    pub fn memory_bytes(&self) -> (n: usize)
        ensures
            n == views_cost(self.views()),
    {
        let ghost all = self.views@;
        let mut n: usize = 0;
        let mut i: usize = 0;
        assert(all.take(0) =~= Seq::empty());
        while i < self.views.len()
            invariant
                i <= self.views.len(),
                all == self.views@,
                n == views_cost(all.take(i as int)),
            decreases self.views.len() - i,
        {
            assert(all.take(i + 1).drop_last() =~= all.take(i as int));
            n = add_capped(n, self.views[i].memory_bytes());
            i += 1;
        }
        assert(all.take(i as int) =~= all);
        n
    }

    /// The views in words, one line each.
    pub fn describe(&self) -> (s: String)
        ensures
            s@ == if self.views().len() == 0 {
                "no materialized views"@
            } else {
                joined(self.views().map_values(|v: MaterializedView| view_text(v)), "\n"@)
            },
    {
        if self.views.len() == 0 {
            return "no materialized views".to_owned();
        }
        let ghost want = self.views@.map_values(|v: MaterializedView| view_text(v));
        let mut lines: Vec<String> = Vec::new();
        let mut i: usize = 0;
        while i < self.views.len()
            invariant
                i <= self.views.len(),
                want == self.views@.map_values(|v: MaterializedView| view_text(v)),
                lines@.len() == i,
                forall|k: int| 0 <= k < i ==> #[trigger] lines@[k]@ == want[k],
            decreases self.views.len() - i,
        {
            let v = &self.views[i];
            let mut line = v.collection.clone();
            line.append(" grouped by [");
            line.append(join(&v.group_by, ", ").as_str());
            line.append("] -> ");
            push_dec(&mut line, v.group_count() as u64);
            line.append(" groups");
            lines.push(line);
            i += 1;
        }
        assert(texts(lines@) =~= want);
        join(&lines, "\n")
    }
}

// -- what a view is for -------------------------------------------------------------------

/// A view answers an aggregate over a whole collection, directly, and no other query: one
/// that filters, sorts, limits or joins is not its to answer, nor one that asks for an
/// extreme.
pub proof fn a_view_is_of_a_whole_collection(op: OpModel)
    ensures
        match definition(op) {
            Some((c, d)) => op == (OpModel::Aggregate {
                input: Box::new(OpModel::Scan { collection: c }),
                group_by: d.group_by,
                aggs: d.aggs,
            }) && d.aggs.len() > 0 && forall|i: int|
                0 <= i < d.aggs.len() ==> !((#[trigger] d.aggs[i]).kind is Min) && !(
                d.aggs[i].kind is Max),
            None => op matches OpModel::Aggregate { input, group_by, aggs } ==> !(*input is Scan)
                || aggs.len() == 0 || exists|i: int|
                0 <= i < aggs.len() && ((#[trigger] aggs[i]).kind is Min || aggs[i].kind is Max),
        },
{
    if let OpModel::Aggregate { input, group_by, aggs } = op {
        if !maintainable(aggs) && aggs.len() > 0 {
            let i = choose|i: int|
                0 <= i < aggs.len() && !((#[trigger] aggs[i]).kind == AggKind::Count || aggs[i].kind
                    == AggKind::Sum || aggs[i].kind == AggKind::Avg);
            assert(aggs[i].kind is Min || aggs[i].kind is Max);
        }
    }
}

/// A query finds its view where there is one of its collection, its grouping and its
/// aggregates, and takes no other.
pub proof fn a_query_finds_its_view(views: Seq<MaterializedView>, op: OpModel)
    ensures
        match (definition(op), view_for(views, op)) {
            (Some((c, d)), Some(v)) => views.contains(v) && v.source() == c && v.def() == d,
            (Some((c, d)), None) => forall|i: int|
                0 <= i < views.len() ==> (#[trigger] views[i]).source() != c || views[i].def() != d,
            (None, v) => v is None,
        },
    decreases views.len(),
{
    if let Some((c, d)) = definition(op) {
        if views.len() > 0 && !views[0].is_of(c, d) {
            let rest = views.drop_first();
            a_query_finds_its_view(rest, op);
            match view_for(rest, op) {
                Some(v) => {
                    let i = choose|i: int| 0 <= i < rest.len() && rest[i] == v;
                    assert(views[i + 1] == v);
                },
                None => {
                    assert forall|i: int| 0 <= i < views.len() implies (#[trigger] views[i]).source()
                        != c || views[i].def() != d by {
                        if i > 0 {
                            assert(rest[i - 1] == views[i]);
                        }
                    }
                },
            }
        } else if views.len() > 0 {
            assert(views.contains(views[0]));
        }
    }
}

/// The records of a group: in each of the grouping's fields they hold what the group is of,
/// or nothing where that is null.
pub open spec fn in_group(r: RecordModel, group_by: Seq<Seq<char>>, key: Seq<ValueModel>) -> bool {
    key.len() == group_by.len() && forall|g: int|
        #![trigger key[g]]
        0 <= g < key.len() ==> Some(key[g]) == field_of(r, group_by[g]) || (key[g] is Null
            && field_of(r, group_by[g]) is None)
}

/// What numbers of a field add up to.
pub open spec fn field_sum(rs: Seq<RecordModel>, f: Seq<char>) -> int
    decreases rs.len(),
{
    if rs.len() == 0 {
        0
    } else {
        field_sum(rs.drop_last(), f) + match field_of(rs.last(), f) {
            Some(v) => match number(v) {
                Some(NumberModel::Exact(n)) => n,
                _ => 0,
            },
            None => 0,
        }
    }
}

/// A view's totals are of the records of each group: as many as there are, as many as hold
/// a value where a field is counted, as many as hold a number where one is summed, and what
/// those numbers come to.
pub proof fn a_view_counts_and_adds_up(
    d: Def,
    rs: Seq<RecordModel>,
    key: Seq<ValueModel>,
    i: int,
)
    requires
        0 <= i < d.aggs.len(),
    ensures
        ({
            let of_group = rs.filter(|r: RecordModel| in_group(r, d.group_by, key));
            &&& rows_in(d, rs, key) == of_group.len()
            &&& match (d.aggs[i].kind, d.aggs[i].field) {
                (AggKind::Count, None) => count_in(d, rs, key, i) == of_group.len(),
                (AggKind::Count, Some(f)) => count_in(d, rs, key, i) == of_group.filter(
                    |r: RecordModel| field_of(r, f) matches Some(v) && !(v is Null),
                ).len(),
                (_, Some(f)) => count_in(d, rs, key, i) == of_group.filter(
                    |r: RecordModel|
                        field_of(r, f) matches Some(v) && (v is I64 || v is U64 || v is F64),
                ).len() && sum_in(d, rs, key, i) == field_sum(of_group, f),
                (_, None) => count_in(d, rs, key, i) == 0,
            }
        }),
    decreases rs.len(),
{
    reveal(Seq::filter);
    let own = |r: RecordModel| in_group(r, d.group_by, key);
    let of_group = rs.filter(own);
    if rs.len() > 0 {
        let rest = rs.drop_last();
        let r = rs.last();
        a_view_counts_and_adds_up(d, rest, key, i);
        assert(group_key(d.group_by, r) == key <==> in_group(r, d.group_by, key)) by {
            let k = group_key(d.group_by, r);
            if in_group(r, d.group_by, key) {
                assert forall|g: int| 0 <= g < key.len() implies k[g] == key[g] by {
                    let v = key[g];
                }
                assert(k =~= key);
            }
            if k == key {
                assert forall|g: int|
                    #![trigger key[g]]
                    0 <= g < key.len() implies Some(key[g]) == field_of(r, d.group_by[g]) || (
                key[g] is Null && field_of(r, d.group_by[g]) is None) by {
                    assert(k[g] == key[g]);
                }
            }
        }
        let before = rest.filter(own);
        assert(of_group == if own(r) {
            before.push(r)
        } else {
            before
        });
        if own(r) {
            assert(of_group.drop_last() =~= before);
            assert(of_group.last() == r);
        }
        if let Some(f) = d.aggs[i].field {
            if let Some(v) = field_of(r, f) {
                crate::number::numbers_count_for_what_they_are(v, 0);
            }
        }
    }
}

/// A view of no rows that does not group says so in one row: nothing was counted, and
/// there is no sum and no mean. One that groups has no row.
pub proof fn a_view_of_nothing_says_so(d: Def)
    ensures
        d.group_by.len() > 0 ==> answer_rows(d, Seq::empty()).len() == 0,
        d.group_by.len() == 0 ==> answer_rows(d, Seq::empty()).len() == 1 && answer_rows(
            d,
            Seq::empty(),
        )[0].0 == 0 && answer_rows(d, Seq::empty())[0].1.len() == d.aggs.len() && forall|i: int|
            0 <= i < d.aggs.len() ==> (#[trigger] answer_rows(d, Seq::empty())[0].1[i]) == (
                d.aggs[i].output,
                CellModel::Value(
                    if d.aggs[i].kind is Count {
                        ValueModel::U64(0)
                    } else {
                        ValueModel::Null
                    },
                ),
            ),
{
}

/// Totals stay trusted as long as they can be: a count always, a sum and a mean where every
/// number is whole and their magnitudes together stay below what is exact.
pub proof fn a_view_is_trusted_as_long_as_it_is_exact(d: Def, rows: Seq<RecordModel>, i: int)
    requires
        0 <= i < d.aggs.len(),
    ensures
        budgets_over(d, rows).len() == d.aggs.len(),
        budgets_over(d, rows)[i].exact <==> d.aggs[i].kind is Count || (summable(d, rows, i)
            && cost_of(d, rows, i) < 0x20_0000_0000_0000),
        budgets_over(d, rows)[i].exact && !(d.aggs[i].kind is Count) ==> budgets_over(
            d,
            rows,
        )[i].spent == cost_of(d, rows, i),
    decreases rows.len(),
{
    if rows.len() > 0 {
        let rest = rows.drop_last();
        a_view_is_trusted_as_long_as_it_is_exact(d, rest, i);
        let s = share(d.aggs[i], rows.last());
        assert(summable(d, rows, i) <==> summable(d, rest, i) && s != Some(NumberModel::Rough)) by {
            if summable(d, rows, i) {
                assert forall|k: int| 0 <= k < rest.len() implies share(
                    d.aggs[i],
                    #[trigger] rest[k],
                ) != Some(NumberModel::Rough) by {
                    assert(rest[k] == rows[k]);
                }
                assert(rows[rows.len() - 1] == rows.last());
            }
            if summable(d, rest, i) && s != Some(NumberModel::Rough) {
                assert forall|k: int| 0 <= k < rows.len() implies share(
                    d.aggs[i],
                    #[trigger] rows[k],
                ) != Some(NumberModel::Rough) by {
                    if k < rest.len() {
                        assert(rest[k] == rows[k]);
                    }
                }
            }
        }
    }
}

/// What whole numbers cost of a budget is their distance from nothing, so what is spent is
/// never less than what they come to, either way.
pub proof fn a_budget_covers_a_sum(d: Def, rows: Seq<RecordModel>, key: Seq<ValueModel>, i: int)
    requires
        0 <= i < d.aggs.len(),
    ensures
        -cost_of(d, rows, i) <= sum_in(d, rows, key, i) <= cost_of(d, rows, i),
    decreases rows.len(),
{
    if rows.len() > 0 {
        a_budget_covers_a_sum(d, rows.drop_last(), key, i);
    }
}

/// A view takes so much a group: a fixed part, a part for each field grouped by and a part
/// for each aggregate; as far as that can be counted.
pub proof fn a_view_takes_so_much_a_group(groups: nat, keys: nat, aggs: nat)
    ensures
        view_cost(groups, keys, aggs) == capped(groups * (32 + 32 * keys + 8 * aggs) as int),
{
    let x = 32 + 32 * keys + 8 * aggs;
    let each = capped(capped(32 + capped((keys * 32) as int)) + capped((aggs * 8) as int));
    assert(each == capped(x as int));
    if x > usize::MAX {
        let top = usize::MAX as int;
        if groups > 0 {
            assert(groups * x > top && groups * top >= top) by (nonlinear_arith)
                requires
                    groups > 0,
                    x > top,
                    top > 0,
            {}
            if groups > 1 {
                assert(groups * top > top) by (nonlinear_arith)
                    requires
                        groups > 1,
                        top > 0,
                {}
            } else {
                assert(groups * top == top) by (nonlinear_arith)
                    requires
                        groups == 1,
                {}
            }
        } else {
            assert(groups * x == 0 && groups * top == 0) by (nonlinear_arith)
                requires
                    groups == 0,
            {}
        }
    }
}

} // verus!
