//! Secondary indexes: which records hold a key.
//!
//! An index holds a pair of key and id for every record that belongs in it, and
//! nothing else. What belongs depends on its shape: a record with a value for
//! the field, with a value for every field, or with a value for the field where
//! a condition keeps the record. A covering index carries some fields of each
//! record beside its key.

use vstd::bytes::*;
use vstd::prelude::*;
use vstd::slice::*;
use crate::action::{ordered_kind, IndexKind};
use crate::assoc::find;
use crate::caches::{rows_model, Rows};
use crate::expr::{Expr, ExprModel};
use crate::names::{
    composite_name, composite_text, covering_name, covering_text, partial_name, partial_text,
};
use crate::number::{capped, mul_capped};
use crate::record::{field_of, Record, RecordModel};
use crate::rows::{ascending, drop_row, put_row, RowsModel};
use crate::text::texts;
use crate::value::{
    lemma_value_before_total, lemma_value_before_transitive, models, value_before, Value,
    ValueModel,
};
use crate::wire::{
    decode_value, encode_value, lemma_value_or_none, lemma_value_round_trip, nested_within,
    put_bytes, value_at, value_bytes, value_sized, MAX_NESTING,
};

verus! {

// -- what belongs -------------------------------------------------------------

/// What an index is over.
#[derive(Debug, PartialEq, Eq)]
pub enum Shape {
    Ordinary { field: String },
    Covering { field: String, covers: Vec<String> },
    Composite { fields: Vec<String> },
    Partial { field: String, condition: Expr, encoded: String },
}

/// What a [`Shape`] says.
pub enum ShapeModel {
    Ordinary { field: Seq<char> },
    Covering { field: Seq<char>, covers: Seq<Seq<char>> },
    Composite { fields: Seq<Seq<char>> },
    Partial { field: Seq<char>, condition: ExprModel, encoded: Seq<char> },
}

impl View for Shape {
    type V = ShapeModel;

    open spec fn view(&self) -> ShapeModel {
        match self {
            Shape::Ordinary { field } => ShapeModel::Ordinary { field: field@ },
            Shape::Covering { field, covers } => ShapeModel::Covering {
                field: field@,
                covers: texts(covers@),
            },
            Shape::Composite { fields } => ShapeModel::Composite { fields: texts(fields@) },
            Shape::Partial { field, condition, encoded } => ShapeModel::Partial {
                field: field@,
                condition: condition.model(),
                encoded: encoded@,
            },
        }
    }
}

/// The name an index of a shape goes by.
pub open spec fn shape_name(s: ShapeModel) -> Seq<char> {
    match s {
        ShapeModel::Ordinary { field } => field,
        ShapeModel::Covering { field, covers } => covering_text(field, covers),
        ShapeModel::Composite { fields } => composite_text(fields),
        ShapeModel::Partial { field, encoded, .. } => partial_text(field, encoded),
    }
}

/// Which records a condition keeps.
pub type Keeps = spec_fn(ExprModel, RecordModel) -> bool;

/// Whether a test of conditions can be asked anything, and answers as `keeps`
/// says.
pub open spec fn evaluates<E: Fn(&Expr, &Record) -> bool>(eval: E, keeps: Keeps) -> bool {
    forall|e: &Expr, r: &Record, b: bool| #[trigger]
        eval.ensures((e, r), b) ==> b == keeps(e.model(), r.model())
}

pub open spec fn askable<E: Fn(&Expr, &Record) -> bool>(eval: E) -> bool {
    forall|e: &Expr, r: &Record| #[trigger] eval.requires((e, r))
}

/// The value of a field, where there is one.
pub open spec fn value_in(r: RecordModel, field: Seq<char>) -> Option<ValueModel> {
    match field_of(r, field) {
        None => None,
        Some(ValueModel::Null) => None,
        Some(v) => Some(v),
    }
}

/// The values of fields, where there is one for each.
pub open spec fn values_in(r: RecordModel, fields: Seq<Seq<char>>) -> Option<Seq<ValueModel>>
    decreases fields.len(),
{
    if fields.len() == 0 {
        Some(Seq::empty())
    } else {
        match (values_in(r, fields.drop_last()), value_in(r, fields.last())) {
            (Some(vs), Some(v)) => Some(vs.push(v)),
            _ => None,
        }
    }
}

/// The key a record has in an index, where it belongs in it.
pub open spec fn key_of(s: ShapeModel, keeps: Keeps, r: RecordModel) -> Option<ValueModel> {
    match s {
        ShapeModel::Ordinary { field } => value_in(r, field),
        ShapeModel::Covering { field, .. } => value_in(r, field),
        ShapeModel::Composite { fields } => match values_in(r, fields) {
            Some(vs) => Some(ValueModel::List(vs)),
            None => None,
        },
        ShapeModel::Partial { field, condition, .. } => if keeps(condition, r) {
            value_in(r, field)
        } else {
            None
        },
    }
}

/// Whether a record is what an index carries of another: its covered fields.
pub open spec fn projects(covers: Seq<Seq<char>>, r: RecordModel, p: RecordModel) -> bool {
    forall|name: Seq<char>| #[trigger]
        field_of(p, name) == if covers.contains(name) {
            field_of(r, name)
        } else {
            None
        }
}

fn field_value(rec: &Record, field: &str) -> (r: Option<Value>)
    ensures
        match value_in(rec.model(), field@) {
            Some(m) => r matches Some(v) && v.model() == m,
            None => r is None,
        },
{
    match rec.get(field) {
        None => None,
        Some(v) => {
            if v.is_null() {
                None
            } else {
                Some(v.dup())
            }
        },
    }
}

/// The values of fields, where there is one for each.
pub fn field_values(rec: &Record, fields: &Vec<String>) -> (r: Option<Vec<Value>>)
    ensures
        match values_in(rec.model(), texts(fields@)) {
            Some(ms) => r matches Some(vs) && models(vs@) == ms,
            None => r is None,
        },
{
    let ghost all = texts(fields@);
    let mut out: Vec<Value> = Vec::new();
    let mut i: usize = 0;
    assert(all.take(0) =~= Seq::empty());
    assert(models(out@) =~= Seq::empty());
    while i < fields.len()
        invariant
            i <= fields@.len(),
            all == texts(fields@),
            values_in(rec.model(), all.take(i as int)) == Some(models(out@)),
        decreases fields.len() - i,
    {
        assert(all.take(i + 1).drop_last() =~= all.take(i as int));
        assert(all.take(i + 1).last() == fields@[i as int]@);
        match field_value(rec, fields[i].as_str()) {
            None => {
                proof {
                    lemma_values_missing(rec.model(), all, i + 1);
                }
                return None;
            },
            Some(v) => {
                let ghost before = models(out@);
                out.push(v);
                assert(models(out@) =~= before.push(v.model()));
            },
        }
        i += 1;
    }
    assert(all.take(i as int) =~= all);
    Some(out)
}

proof fn lemma_values_missing(r: RecordModel, fields: Seq<Seq<char>>, n: int)
    requires
        0 <= n <= fields.len(),
        values_in(r, fields.take(n)) is None,
    ensures
        values_in(r, fields) is None,
    decreases fields.len() - n,
{
    if n < fields.len() {
        assert(fields.take(n + 1).drop_last() =~= fields.take(n));
        lemma_values_missing(r, fields, n + 1);
    } else {
        assert(fields.take(n) =~= fields);
    }
}

impl Shape {
    pub fn name(&self) -> (s: String)
        ensures
            s@ == shape_name(self@),
    {
        match self {
            Shape::Ordinary { field } => field.clone(),
            Shape::Covering { field, covers } => covering_name(field.as_str(), covers),
            Shape::Composite { fields } => composite_name(fields),
            Shape::Partial { field, encoded, .. } => partial_name(field.as_str(), encoded.as_str()),
        }
    }

    /// The key a record has in an index of this shape, where it belongs in it.
    pub fn key<E: Fn(&Expr, &Record) -> bool>(&self, rec: &Record, eval: &E) -> (r: Option<Value>)
        requires
            askable(*eval),
        ensures
            forall|keeps: Keeps| #[trigger]
                evaluates(*eval, keeps) ==> match key_of(self@, keeps, rec.model()) {
                    Some(m) => r matches Some(v) && v.model() == m,
                    None => r is None,
                },
    {
        match self {
            Shape::Ordinary { field } => field_value(rec, field.as_str()),
            Shape::Covering { field, .. } => field_value(rec, field.as_str()),
            Shape::Composite { fields } => match field_values(rec, fields) {
                Some(vs) => {
                    assert(Value::List(vs).model()->List_0 =~= models(vs@));
                    Some(Value::List(vs))
                },
                None => None,
            },
            Shape::Partial { field, condition, .. } => {
                if eval(condition, rec) {
                    field_value(rec, field.as_str())
                } else {
                    None
                }
            },
        }
    }
}

// -- an index -----------------------------------------------------------------

/// A key and an id under it.
pub type Entry = (ValueModel, u64);

/// Entries go by key, then by id.
pub open spec fn entry_before(a: Entry, b: Entry) -> bool {
    value_before(a.0, b.0) || (a.0 == b.0 && a.1 < b.1)
}

pub proof fn lemma_entry_order(a: Entry, b: Entry, c: Entry)
    ensures
        entry_before(a, b) || entry_before(b, a) || a == b,
        !(entry_before(a, b) && entry_before(b, a)),
        !entry_before(a, a),
        entry_before(a, b) && entry_before(b, c) ==> entry_before(a, c),
{
    lemma_value_before_total(a.0, b.0);
    lemma_value_before_total(b.0, c.0);
    lemma_value_before_total(a.0, a.0);
    if value_before(a.0, b.0) && value_before(b.0, c.0) {
        lemma_value_before_transitive(a.0, b.0, c.0);
    }
}

pub open spec fn entries_ordered(s: Seq<Entry>) -> bool {
    forall|i: int, j: int|
        #![trigger s[i], s[j]]
        0 <= i < j < s.len() ==> entry_before(s[i], s[j])
}

/// An index over records.
#[derive(Debug)]
pub struct Index {
    shape: Shape,
    kind: IndexKind,
    entries: Vec<(Value, u64)>,
    carried: Rows,
}

/// What an [`Index`] holds: its entries in order, and what it carries of each
/// record, by id.
pub struct IndexModel {
    pub shape: ShapeModel,
    pub kind: IndexKind,
    pub entries: Seq<Entry>,
    pub carried: RowsModel,
}

pub open spec fn entry_models(s: Seq<(Value, u64)>) -> Seq<Entry> {
    s.map_values(|e: (Value, u64)| (e.0.model(), e.1))
}

impl View for Index {
    type V = IndexModel;

    closed spec fn view(&self) -> IndexModel {
        IndexModel {
            shape: self.shape@,
            kind: self.kind,
            entries: entry_models(self.entries@),
            carried: rows_model(self.carried@),
        }
    }
}

/// Whether an index is in order.
pub open spec fn index_ok(m: IndexModel) -> bool {
    entries_ordered(m.entries) && ascending(m.carried)
}

/// Whether entries are those there were and one more.
pub open spec fn entry_added(before: Seq<Entry>, e: Entry, after: Seq<Entry>) -> bool {
    forall|x: Entry| #[trigger] after.contains(x) <==> before.contains(x) || x == e
}

/// Whether entries are those there were but one.
pub open spec fn entry_removed(before: Seq<Entry>, e: Entry, after: Seq<Entry>) -> bool {
    forall|x: Entry| #[trigger] after.contains(x) <==> before.contains(x) && x != e
}

/// The ids under a key, ascending.
pub open spec fn ids_under(s: Seq<Entry>, key: ValueModel) -> Seq<u64>
    decreases s.len(),
{
    if s.len() == 0 {
        Seq::empty()
    } else {
        let before = ids_under(s.drop_last(), key);
        if s.last().0 == key {
            before.push(s.last().1)
        } else {
            before
        }
    }
}

pub proof fn lemma_ids_under(s: Seq<Entry>, key: ValueModel)
    ensures
        forall|id: u64| #[trigger] ids_under(s, key).contains(id) <==> s.contains((key, id)),
    decreases s.len(),
{
    if s.len() > 0 {
        let rest = s.drop_last();
        lemma_ids_under(rest, key);
        let ids = ids_under(s, key);
        let before = ids_under(rest, key);
        assert forall|id: u64| #[trigger] ids.contains(id) <==> s.contains((key, id)) by {
            if s.contains((key, id)) {
                let i = choose|i: int| 0 <= i < s.len() && s[i] == (key, id);
                if i < rest.len() {
                    assert(rest[i] == (key, id));
                    assert(before.contains(id));
                    let k = choose|k: int| 0 <= k < before.len() && before[k] == id;
                    assert(ids[k] == id);
                } else {
                    assert(ids[ids.len() - 1] == id);
                }
            }
            if ids.contains(id) {
                let k = choose|k: int| 0 <= k < ids.len() && ids[k] == id;
                if s.last().0 == key && k == before.len() {
                    assert(s[s.len() - 1] == (key, id));
                } else {
                    assert(before[k] == id);
                    assert(before.contains(id));
                    let i = choose|i: int| 0 <= i < rest.len() && rest[i] == (key, id);
                    assert(s[i] == (key, id));
                }
            }
        }
    }
}

/// One end of a range.
#[derive(Debug, PartialEq, Eq)]
pub enum Limit {
    Unbounded,
    Included(Value),
    Excluded(Value),
}

pub enum LimitModel {
    Unbounded,
    Included(ValueModel),
    Excluded(ValueModel),
}

impl View for Limit {
    type V = LimitModel;

    open spec fn view(&self) -> LimitModel {
        match self {
            Limit::Unbounded => LimitModel::Unbounded,
            Limit::Included(v) => LimitModel::Included(v.model()),
            Limit::Excluded(v) => LimitModel::Excluded(v.model()),
        }
    }
}

/// Whether a key lies in a range.
pub open spec fn in_range(lo: LimitModel, hi: LimitModel, key: ValueModel) -> bool {
    &&& match lo {
        LimitModel::Unbounded => true,
        LimitModel::Included(v) => !value_before(key, v),
        LimitModel::Excluded(v) => value_before(v, key),
    }
    &&& match hi {
        LimitModel::Unbounded => true,
        LimitModel::Included(v) => !value_before(v, key),
        LimitModel::Excluded(v) => value_before(key, v),
    }
}

/// The ids of a range, in the order of their keys.
pub open spec fn ids_between(s: Seq<Entry>, lo: LimitModel, hi: LimitModel) -> Seq<u64>
    decreases s.len(),
{
    if s.len() == 0 {
        Seq::empty()
    } else {
        let before = ids_between(s.drop_last(), lo, hi);
        if in_range(lo, hi, s.last().0) {
            before.push(s.last().1)
        } else {
            before
        }
    }
}

/// How many distinct keys entries in order have.
pub open spec fn keys_in(s: Seq<Entry>) -> nat
    decreases s.len(),
{
    if s.len() == 0 {
        0
    } else if s.len() > 1 && s[s.len() - 2].0 == s.last().0 {
        keys_in(s.drop_last())
    } else {
        keys_in(s.drop_last()) + 1
    }
}

fn is_between(lo: &Limit, hi: &Limit, key: &Value) -> (r: bool)
    ensures
        r == in_range(lo@, hi@, key.model()),
{
    let above = match lo {
        Limit::Unbounded => true,
        Limit::Included(v) => !key.before(v),
        Limit::Excluded(v) => v.before(key),
    };
    let below = match hi {
        Limit::Unbounded => true,
        Limit::Included(v) => !v.before(key),
        Limit::Excluded(v) => key.before(v),
    };
    above && below
}

impl Index {
    pub closed spec fn wf(&self) -> bool {
        index_ok(self@)
    }

    /// What every index satisfies.
    pub proof fn an_index_is_in_order(&self)
        requires
            self.wf(),
        ensures
            index_ok(self@),
    {
    }

    pub fn new(shape: Shape, kind: IndexKind) -> (i: Index)
        ensures
            i.wf(),
            i@ == (IndexModel {
                shape: shape@,
                kind,
                entries: Seq::empty(),
                carried: Seq::empty(),
            }),
    {
        let i = Index { shape, kind, entries: Vec::new(), carried: Vec::new() };
        assert(i@.entries =~= Seq::empty());
        assert(i@.carried =~= Seq::empty());
        i
    }

    /// The name the index goes by.
    pub fn field(&self) -> (s: String)
        ensures
            s@ == shape_name(self@.shape),
    {
        self.shape.name()
    }

    pub fn shape(&self) -> (s: &Shape)
        ensures
            s@ == self@.shape,
    {
        &self.shape
    }

    pub fn kind(&self) -> (k: IndexKind)
        ensures
            k == self@.kind,
    {
        self.kind
    }

    pub fn len(&self) -> (n: usize)
        ensures
            n == self@.entries.len(),
    {
        self.entries.len()
    }

    /// The `i`-th entry.
    pub fn entry_at(&self, i: usize) -> (e: (&Value, u64))
        requires
            i < self@.entries.len(),
        ensures
            (e.0.model(), e.1) == self@.entries[i as int],
    {
        let e = &self.entries[i];
        (&e.0, e.1)
    }

    fn goes_before(&self, i: usize, key: &Value, id: u64) -> (r: bool)
        requires
            i < self@.entries.len(),
        ensures
            r == entry_before(self@.entries[i as int], (key.model(), id)),
    {
        let e = &self.entries[i];
        proof {
            lemma_value_before_total(e.0.model(), key.model());
        }
        e.0.before(key) || (!key.before(&e.0) && e.1 < id)
    }

    /// Where an entry stands, or where it would.
    fn place(&self, key: &Value, id: u64) -> (at: usize)
        requires
            self.wf(),
        ensures
            at <= self@.entries.len(),
            forall|k: int|
                0 <= k < at ==> entry_before(#[trigger] self@.entries[k], (key.model(), id)),
            forall|k: int|
                at <= k < self@.entries.len() ==> !entry_before(
                    #[trigger] self@.entries[k],
                    (key.model(), id),
                ),
    {
        let ghost s = self@.entries;
        let ghost want = (key.model(), id);
        let mut lo: usize = 0;
        let mut hi: usize = self.entries.len();
        while lo < hi
            invariant
                lo <= hi <= s.len(),
                self.wf(),
                s == self@.entries,
                want == (key.model(), id),
                forall|k: int| 0 <= k < lo ==> entry_before(#[trigger] s[k], want),
                forall|k: int| hi <= k < s.len() ==> !entry_before(#[trigger] s[k], want),
            decreases hi - lo,
        {
            let mid: usize = lo + (hi - lo) / 2;
            if self.goes_before(mid, key, id) {
                proof {
                    assert forall|k: int| 0 <= k < mid + 1 implies entry_before(
                        #[trigger] s[k],
                        want,
                    ) by {
                        if k < mid {
                            lemma_entry_order(s[k], s[mid as int], want);
                        }
                    }
                }
                lo = mid + 1;
            } else {
                proof {
                    assert forall|k: int| mid <= k < s.len() implies !entry_before(
                        #[trigger] s[k],
                        want,
                    ) by {
                        if k > mid && entry_before(s[k], want) {
                            lemma_entry_order(s[mid as int], s[k], want);
                        }
                    }
                }
                hi = mid;
            }
        }
        lo
    }

    fn stands_at(&self, at: usize, key: &Value, id: u64) -> (r: bool)
        ensures
            r == (at < self@.entries.len() && self@.entries[at as int] == (key.model(), id)),
    {
        at < self.entries.len() && self.entries[at].1 == id && self.entries[at].0.same(key)
    }

    /// Hold an id under a key.
    pub fn insert(&mut self, key: &Value, id: u64)
        requires
            old(self).wf(),
        ensures
            final(self).wf(),
            final(self)@.shape == old(self)@.shape,
            final(self)@.kind == old(self)@.kind,
            final(self)@.carried == old(self)@.carried,
            entry_added(old(self)@.entries, (key.model(), id), final(self)@.entries),
    {
        let ghost before = self@.entries;
        let ghost e = (key.model(), id);
        let at = self.place(key, id);
        if self.stands_at(at, key, id) {
            assert(before.contains(e));
            return;
        }
        self.entries.insert(at, (key.dup(), id));
        let ghost after = before.insert(at as int, e);
        proof {
            assert(self@.entries =~= after);
            assert forall|i: int, j: int|
                #![trigger after[i], after[j]]
                0 <= i < j < after.len() implies entry_before(after[i], after[j]) by {
                if j == at {
                    assert(after[i] == before[i]);
                } else if i == at {
                    assert(after[j] == before[j - 1]);
                    lemma_entry_order(before[j - 1], e, e);
                    if before[j - 1] == e {
                        assert(!entry_before(before[at as int], e));
                        if j - 1 > at {
                            assert(entry_before(before[at as int], before[j - 1]));
                        }
                    }
                } else {
                    let x = if i < at { i } else { i - 1 };
                    let y = if j < at { j } else { j - 1 };
                    assert(after[i] == before[x] && after[j] == before[y]);
                }
            }
            assert forall|x: Entry| #[trigger] after.contains(x) <==> before.contains(x) || x == e by {
                if before.contains(x) {
                    let i = choose|i: int| 0 <= i < before.len() && before[i] == x;
                    assert(after[if i < at { i } else { i + 1 }] == x);
                }
                assert(after[at as int] == e);
                if after.contains(x) && x != e {
                    let i = choose|i: int| 0 <= i < after.len() && after[i] == x;
                    assert(before[if i < at { i } else { i - 1 }] == x);
                }
            }
        }
    }

    /// Hold an id under a key no longer.
    pub fn remove(&mut self, key: &Value, id: u64)
        requires
            old(self).wf(),
        ensures
            final(self).wf(),
            final(self)@.shape == old(self)@.shape,
            final(self)@.kind == old(self)@.kind,
            final(self)@.carried == old(self)@.carried,
            entry_removed(old(self)@.entries, (key.model(), id), final(self)@.entries),
    {
        let ghost before = self@.entries;
        let ghost e = (key.model(), id);
        let at = self.place(key, id);
        if !self.stands_at(at, key, id) {
            proof {
                if before.contains(e) {
                    let i = choose|i: int| 0 <= i < before.len() && before[i] == e;
                    lemma_entry_order(e, e, e);
                    if i > at {
                        assert(entry_before(before[at as int], before[i]));
                    }
                }
            }
            return;
        }
        self.entries.remove(at);
        let ghost after = before.remove(at as int);
        proof {
            assert(self@.entries =~= after);
            assert forall|i: int, j: int|
                #![trigger after[i], after[j]]
                0 <= i < j < after.len() implies entry_before(after[i], after[j]) by {
                let x = if i < at { i } else { i + 1 };
                let y = if j < at { j } else { j + 1 };
                assert(after[i] == before[x] && after[j] == before[y]);
            }
            assert forall|x: Entry| #[trigger] after.contains(x) <==> before.contains(x) && x != e by {
                if before.contains(x) && x != e {
                    let i = choose|i: int| 0 <= i < before.len() && before[i] == x;
                    assert(after[if i < at { i } else { i - 1 }] == x);
                }
                if after.contains(x) {
                    let i = choose|i: int| 0 <= i < after.len() && after[i] == x;
                    let k = if i < at { i } else { i + 1 };
                    assert(before[k] == x);
                    lemma_entry_order(e, e, e);
                    if k < at {
                        assert(entry_before(before[k], before[at as int]));
                    } else {
                        assert(entry_before(before[at as int], before[k]));
                    }
                }
            }
        }
    }

    /// The ids under a key, ascending.
    pub fn lookup(&self, key: &Value) -> (ids: Vec<u64>)
        requires
            self.wf(),
        ensures
            ids@ == ids_under(self@.entries, key.model()),
    {
        let ghost s = self@.entries;
        let ghost k = key.model();
        let from = self.place(key, 0);
        let mut ids: Vec<u64> = Vec::new();
        let mut i: usize = from;
        proof {
            lemma_none_under(s, k, from as int);
        }
        while i < self.entries.len() && self.entries[i].0.same(key)
            invariant
                from <= i <= s.len(),
                self.wf(),
                s == self@.entries,
                k == key.model(),
                ids@ == ids_under(s.take(i as int), k),
                forall|j: int| from <= j < i ==> (#[trigger] s[j]).0 == k,
                forall|j: int| from <= j < s.len() ==> !entry_before(#[trigger] s[j], (k, 0)),
            decreases self.entries.len() - i,
        {
            assert(s.take(i + 1).drop_last() =~= s.take(i as int));
            assert(s.take(i + 1).last() == s[i as int]);
            ids.push(self.entries[i].1);
            i += 1;
        }
        proof {
            lemma_rest_not_under(s, k, i as int);
        }
        ids
    }

    /// The ids whose keys lie in a range, in the order of their keys. Nothing
    /// where the index has no order to walk.
    pub fn range(&self, lo: &Limit, hi: &Limit) -> (r: Option<Vec<u64>>)
        requires
            self.wf(),
        ensures
            if ordered_kind(self@.kind) {
                r matches Some(ids) && ids@ == ids_between(self@.entries, lo@, hi@)
            } else {
                r is None
            },
    {
        if !self.kind.supports_range() {
            return None;
        }
        let ghost s = self@.entries;
        let mut ids: Vec<u64> = Vec::new();
        let mut i: usize = 0;
        assert(s.take(0) =~= Seq::empty());
        while i < self.entries.len()
            invariant
                i <= s.len(),
                s == self@.entries,
                ids@ == ids_between(s.take(i as int), lo@, hi@),
            decreases self.entries.len() - i,
        {
            assert(s.take(i + 1).drop_last() =~= s.take(i as int));
            assert(s.take(i + 1).last() == s[i as int]);
            if is_between(lo, hi, &self.entries[i].0) {
                ids.push(self.entries[i].1);
            }
            i += 1;
        }
        assert(s.take(i as int) =~= s);
        Some(ids)
    }

    /// How many distinct keys there are.
    pub fn key_count(&self) -> (n: usize)
        ensures
            n == keys_in(self@.entries),
    {
        let ghost s = self@.entries;
        let mut n: usize = 0;
        let mut i: usize = 0;
        assert(s.take(0) =~= Seq::empty());
        while i < self.entries.len()
            invariant
                i <= s.len(),
                s == self@.entries,
                n <= i,
                n == keys_in(s.take(i as int)),
            decreases self.entries.len() - i,
        {
            let ghost next = s.take(i + 1);
            assert(next.drop_last() =~= s.take(i as int));
            assert(next.last() == s[i as int]);
            assert(i > 0 ==> next[i - 1] == s[i - 1]);
            if i == 0 || !self.entries[i - 1].0.same(&self.entries[i].0) {
                n += 1;
            }
            i += 1;
        }
        assert(s.take(i as int) =~= s);
        n
    }

    /// What the index costs to keep: a key, an id and what holds them together,
    /// for each entry.
    pub fn memory_bytes(&self) -> (n: usize)
        ensures
            n == capped(self@.entries.len() as int * 64),
    {
        mul_capped(self.entries.len(), 64)
    }

    /// The fields the index carries.
    pub fn covers(&self) -> (r: Option<&Vec<String>>)
        ensures
            match self@.shape {
                ShapeModel::Covering { covers, .. } => r matches Some(c) && texts(c@) == covers,
                _ => r is None,
            },
    {
        match &self.shape {
            Shape::Covering { covers, .. } => Some(covers),
            _ => None,
        }
    }

    /// What the index carries of a record.
    pub fn covered(&self, id: u64) -> (r: Option<&Record>)
        ensures
            match find(self@.carried, id) {
                Some(m) => r matches Some(rec) && rec.model() == m,
                None => r is None,
            },
    {
        let ghost s = self@.carried;
        let mut i: usize = 0;
        assert(s.skip(0) =~= s);
        while i < self.carried.len()
            invariant
                i <= self.carried@.len(),
                s == self@.carried,
                s.len() == self.carried@.len(),
                find(s, id) == find(s.skip(i as int), id),
            decreases self.carried.len() - i,
        {
            assert(s.skip(i as int)[0] == (self.carried@[i as int].0, self.carried@[i as int].1.model()));
            if self.carried[i].0 == id {
                return Some(&self.carried[i].1);
            }
            assert(s.skip(i as int).drop_first() =~= s.skip(i + 1));
            i += 1;
        }
        None
    }
}

proof fn lemma_none_under(s: Seq<Entry>, key: ValueModel, n: int)
    requires
        0 <= n <= s.len(),
        forall|k: int| 0 <= k < n ==> entry_before(#[trigger] s[k], (key, 0)),
    ensures
        ids_under(s.take(n), key) == Seq::<u64>::empty(),
    decreases n,
{
    if n > 0 {
        assert(s.take(n).drop_last() =~= s.take(n - 1));
        lemma_value_before_total(s[n - 1].0, key);
        assert(entry_before(s[n - 1], (key, 0)));
        lemma_none_under(s, key, n - 1);
    }
}

proof fn lemma_rest_not_under(s: Seq<Entry>, key: ValueModel, n: int)
    requires
        0 <= n <= s.len(),
        entries_ordered(s),
        n < s.len() ==> s[n].0 != key && !entry_before(s[n], (key, 0)),
    ensures
        ids_under(s, key) == ids_under(s.take(n), key),
{
    if n < s.len() {
        lemma_value_before_total(s[n].0, key);
        lemma_above_not_under(s, key, n, s.len() as int);
        assert(s.take(s.len() as int) =~= s);
    } else {
        assert(s.take(n) =~= s);
    }
}

proof fn lemma_above_not_under(s: Seq<Entry>, key: ValueModel, n: int, m: int)
    requires
        0 <= n < s.len(),
        n <= m <= s.len(),
        entries_ordered(s),
        value_before(key, s[n].0),
    ensures
        ids_under(s.take(m), key) == ids_under(s.take(n), key),
    decreases m - n,
{
    if n < m {
        lemma_above_not_under(s, key, n, m - 1);
        assert(s.take(m).drop_last() =~= s.take(m - 1));
        if m - 1 > n {
            assert(entry_before(s[n], s[m - 1]));
            if value_before(s[n].0, s[m - 1].0) {
                lemma_value_before_transitive(key, s[n].0, s[m - 1].0);
            }
        }
        lemma_value_before_total(key, s[m - 1].0);
    }
}

// -- keeping up with records --------------------------------------------------

/// Whether an index is another with a record taken in, if it belongs.
pub open spec fn took_in(
    a: IndexModel,
    keeps: Keeps,
    id: u64,
    r: RecordModel,
    b: IndexModel,
) -> bool {
    &&& b.shape == a.shape
    &&& b.kind == a.kind
    &&& match key_of(a.shape, keeps, r) {
        None => b.entries == a.entries && b.carried == a.carried,
        Some(k) => {
            &&& entry_added(a.entries, (k, id), b.entries)
            &&& match a.shape {
                ShapeModel::Covering { covers, .. } => {
                    &&& find(b.carried, id) matches Some(p) && projects(covers, r, p)
                    &&& forall|other: u64|
                        other != id ==> #[trigger] find(b.carried, other) == find(a.carried, other)
                },
                _ => b.carried == a.carried,
            }
        },
    }
}

/// Whether an index is another with a record let go, if it belonged.
pub open spec fn let_go(
    a: IndexModel,
    keeps: Keeps,
    id: u64,
    r: RecordModel,
    b: IndexModel,
) -> bool {
    &&& b.shape == a.shape
    &&& b.kind == a.kind
    &&& match key_of(a.shape, keeps, r) {
        None => b.entries == a.entries && b.carried == a.carried,
        Some(k) => {
            &&& entry_removed(a.entries, (k, id), b.entries)
            &&& match a.shape {
                ShapeModel::Covering { .. } => {
                    &&& find(b.carried, id) is None
                    &&& forall|other: u64|
                        other != id ==> #[trigger] find(b.carried, other) == find(a.carried, other)
                },
                _ => b.carried == a.carried,
            }
        },
    }
}

/// The records of a collection, by id.
pub type Records = Map<u64, RecordModel>;

/// The key a stored record has in an index, where it is stored and belongs.
pub open spec fn key_under(s: ShapeModel, keeps: Keeps, t: Records, id: u64) -> Option<ValueModel> {
    if t.dom().contains(id) {
        key_of(s, keeps, t[id])
    } else {
        None
    }
}

/// Whether an index says exactly what the records say: it holds an id under a
/// key if and only if the record with that id has that key, and carries exactly
/// the covered fields of each record it holds.
pub open spec fn faithful(m: IndexModel, keeps: Keeps, t: Records) -> bool {
    &&& forall|k: ValueModel, id: u64| #[trigger]
        m.entries.contains((k, id)) <==> key_under(m.shape, keeps, t, id) == Some(k)
    &&& m.shape matches ShapeModel::Covering { covers, .. } ==> forall|id: u64|
        match #[trigger] find(m.carried, id) {
            Some(p) => key_under(m.shape, keeps, t, id) is Some && projects(covers, t[id], p),
            None => key_under(m.shape, keeps, t, id) is None,
        }
}

/// An index of nothing is faithful to no records.
pub proof fn an_empty_index_is_faithful(m: IndexModel, keeps: Keeps)
    requires
        m.entries.len() == 0,
        m.carried.len() == 0,
    ensures
        faithful(m, keeps, Map::empty()),
{
}

/// A faithful index stays faithful when a record it had no id of is taken in.
pub proof fn taking_in_keeps_an_index_faithful(
    a: IndexModel,
    keeps: Keeps,
    t: Records,
    id: u64,
    r: RecordModel,
    b: IndexModel,
)
    requires
        faithful(a, keeps, t),
        !t.dom().contains(id),
        took_in(a, keeps, id, r, b),
    ensures
        faithful(b, keeps, t.insert(id, r)),
{
    let u = t.insert(id, r);
    assert forall|k: ValueModel, i: u64| #[trigger]
        b.entries.contains((k, i)) <==> key_under(b.shape, keeps, u, i) == Some(k) by {
        assert(a.entries.contains((k, i)) <==> key_under(a.shape, keeps, t, i) == Some(k));
    }
    if let ShapeModel::Covering { covers, .. } = b.shape {
        assert forall|i: u64|
            match #[trigger] find(b.carried, i) {
                Some(p) => key_under(b.shape, keeps, u, i) is Some && projects(covers, u[i], p),
                None => key_under(b.shape, keeps, u, i) is None,
            } by {
            assert(match find(a.carried, i) {
                Some(p) => key_under(a.shape, keeps, t, i) is Some && projects(covers, t[i], p),
                None => key_under(a.shape, keeps, t, i) is None,
            });
        }
    }
}

/// A faithful index stays faithful when a record is let go.
pub proof fn letting_go_keeps_an_index_faithful(
    a: IndexModel,
    keeps: Keeps,
    t: Records,
    id: u64,
    b: IndexModel,
)
    requires
        faithful(a, keeps, t),
        t.dom().contains(id),
        let_go(a, keeps, id, t[id], b),
    ensures
        faithful(b, keeps, t.remove(id)),
{
    let u = t.remove(id);
    assert forall|k: ValueModel, i: u64| #[trigger]
        b.entries.contains((k, i)) <==> key_under(b.shape, keeps, u, i) == Some(k) by {
        assert(a.entries.contains((k, i)) <==> key_under(a.shape, keeps, t, i) == Some(k));
    }
    if let ShapeModel::Covering { covers, .. } = b.shape {
        assert forall|i: u64|
            match #[trigger] find(b.carried, i) {
                Some(p) => key_under(b.shape, keeps, u, i) is Some && projects(covers, u[i], p),
                None => key_under(b.shape, keeps, u, i) is None,
            } by {
            assert(match find(a.carried, i) {
                Some(p) => key_under(a.shape, keeps, t, i) is Some && projects(covers, t[i], p),
                None => key_under(a.shape, keeps, t, i) is None,
            });
        }
    }
}

/// A faithful index finds exactly the records that hold a key.
pub proof fn a_faithful_index_finds_what_a_scan_finds(
    m: IndexModel,
    keeps: Keeps,
    t: Records,
    key: ValueModel,
    id: u64,
)
    requires
        faithful(m, keeps, t),
    ensures
        ids_under(m.entries, key).contains(id) <==> t.dom().contains(id) && key_of(
            m.shape,
            keeps,
            t[id],
        ) == Some(key),
{
    lemma_ids_under(m.entries, key);
    assert(m.entries.contains((key, id)) <==> key_under(m.shape, keeps, t, id) == Some(key));
}

proof fn lemma_ids_between(s: Seq<Entry>, lo: LimitModel, hi: LimitModel, id: u64)
    ensures
        ids_between(s, lo, hi).contains(id) <==> exists|k: ValueModel| #[trigger]
            s.contains((k, id)) && in_range(lo, hi, k),
    decreases s.len(),
{
    if s.len() > 0 {
        let rest = s.drop_last();
        let (ids, before) = (ids_between(s, lo, hi), ids_between(rest, lo, hi));
        lemma_ids_between(rest, lo, hi, id);
        if ids.contains(id) {
            let i = choose|i: int| 0 <= i < ids.len() && ids[i] == id;
            if i < before.len() {
                assert(before[i] == id);
                let k = choose|k: ValueModel| #[trigger]
                    rest.contains((k, id)) && in_range(lo, hi, k);
                let j = choose|j: int| 0 <= j < rest.len() && rest[j] == (k, id);
                assert(s[j] == (k, id));
                assert(s.contains((k, id)));
            } else {
                assert(s[s.len() - 1] == (s.last().0, id));
                assert(s.contains((s.last().0, id)));
            }
        }
        if exists|k: ValueModel| #[trigger] s.contains((k, id)) && in_range(lo, hi, k) {
            let k = choose|k: ValueModel| #[trigger] s.contains((k, id)) && in_range(lo, hi, k);
            let j = choose|j: int| 0 <= j < s.len() && s[j] == (k, id);
            if j < rest.len() {
                assert(rest[j] == (k, id));
                assert(rest.contains((k, id)));
                let i = choose|i: int| 0 <= i < before.len() && before[i] == id;
                assert(ids[i] == id);
            } else {
                assert(ids[ids.len() - 1] == id);
            }
        }
    } else {
        assert(ids_between(s, lo, hi).len() == 0);
    }
}

/// A faithful index finds exactly the records whose key lies in a range.
pub proof fn a_faithful_index_ranges_over_what_a_scan_finds(
    m: IndexModel,
    keeps: Keeps,
    t: Records,
    lo: LimitModel,
    hi: LimitModel,
    id: u64,
)
    requires
        faithful(m, keeps, t),
    ensures
        ids_between(m.entries, lo, hi).contains(id) <==> t.dom().contains(id) && (key_of(
            m.shape,
            keeps,
            t[id],
        ) matches Some(k) && in_range(lo, hi, k)),
{
    lemma_ids_between(m.entries, lo, hi, id);
    if let Some(k) = key_under(m.shape, keeps, t, id) {
        assert(m.entries.contains((k, id)));
    }
    if ids_between(m.entries, lo, hi).contains(id) {
        let k = choose|k: ValueModel| #[trigger]
            m.entries.contains((k, id)) && in_range(lo, hi, k);
        assert(key_under(m.shape, keeps, t, id) == Some(k));
    }
}

/// Some fields of a record: those of them it has.
pub fn projection(rec: &Record, covers: &Vec<String>) -> (p: Record)
    ensures
        projects(texts(covers@), rec.model(), p.model()),
{
    let ghost all = texts(covers@);
    let mut p = Record::new();
    let mut i: usize = 0;
    assert(all.take(0) =~= Seq::empty());
    while i < covers.len()
        invariant
            i <= covers@.len(),
            all == texts(covers@),
            forall|name: Seq<char>| #[trigger]
                p.field(name) == if all.take(i as int).contains(name) {
                    field_of(rec.model(), name)
                } else {
                    None
                },
        decreases covers.len() - i,
    {
        let ghost before = p;
        let f = covers[i].as_str();
        match rec.get(f) {
            Some(v) => {
                p.set(f, v.dup());
            },
            None => {},
        }
        proof {
            let now = all.take(i as int);
            let next = all.take(i + 1);
            assert(next =~= now.push(f@));
            assert(next[i as int] == f@);
            assert(rec.field(f@) == field_of(rec.model(), f@));
            assert forall|name: Seq<char>| #[trigger] p.field(name) == if next.contains(name) {
                field_of(rec.model(), name)
            } else {
                None
            } by {
                assert(before.field(name) == if now.contains(name) {
                    field_of(rec.model(), name)
                } else {
                    None
                });
                if name != f@ {
                    if next.contains(name) {
                        let k = choose|k: int| 0 <= k < next.len() && next[k] == name;
                        assert(now[k] == name);
                    }
                    if now.contains(name) {
                        let k = choose|k: int| 0 <= k < now.len() && now[k] == name;
                        assert(next[k] == name);
                    }
                }
            }
        }
        i += 1;
    }
    assert(all.take(i as int) =~= all);
    proof {
        assert forall|name: Seq<char>| #[trigger] field_of(p.model(), name) == if all.contains(
            name,
        ) {
            field_of(rec.model(), name)
        } else {
            None
        } by {
            assert(p.field(name) == field_of(p.model(), name));
        }
    }
    p
}

impl Index {
    /// Take a record in, if it belongs.
    pub fn index_record<E: Fn(&Expr, &Record) -> bool>(&mut self, id: u64, rec: &Record, eval: &E)
        requires
            old(self).wf(),
            askable(*eval),
        ensures
            final(self).wf(),
            forall|keeps: Keeps| #[trigger]
                evaluates(*eval, keeps) ==> took_in(
                    old(self)@,
                    keeps,
                    id,
                    rec.model(),
                    final(self)@,
                ),
            final(self)@.shape == old(self)@.shape,
            final(self)@.kind == old(self)@.kind,
    {
        match self.shape.key(rec, eval) {
            None => {},
            Some(k) => {
                self.insert(&k, id);
                let p = match &self.shape {
                    Shape::Covering { covers, .. } => Some(projection(rec, covers)),
                    _ => None,
                };
                match p {
                    Some(p) => {
                        put_row(&mut self.carried, id, p);
                    },
                    None => {},
                }
            },
        }
    }

    /// Let a record go, if it belonged.
    pub fn unindex_record<E: Fn(&Expr, &Record) -> bool>(&mut self, id: u64, rec: &Record, eval: &E)
        requires
            old(self).wf(),
            askable(*eval),
        ensures
            final(self).wf(),
            forall|keeps: Keeps| #[trigger]
                evaluates(*eval, keeps) ==> let_go(
                    old(self)@,
                    keeps,
                    id,
                    rec.model(),
                    final(self)@,
                ),
            final(self)@.shape == old(self)@.shape,
            final(self)@.kind == old(self)@.kind,
    {
        match self.shape.key(rec, eval) {
            None => {},
            Some(k) => {
                self.remove(&k, id);
                let covering = match &self.shape {
                    Shape::Covering { .. } => true,
                    _ => false,
                };
                if covering {
                    drop_row(&mut self.carried, id);
                }
            },
        }
    }
}

// -- entries as bytes ---------------------------------------------------------

/// A key and the ids under it.
pub type Group = (ValueModel, Seq<u64>);

pub open spec fn group_models(s: Seq<(Value, Vec<u64>)>) -> Seq<Group> {
    s.map_values(|g: (Value, Vec<u64>)| (g.0.model(), g.1@))
}

/// Groups taken apart.
pub open spec fn ungrouped(g: Seq<Group>) -> Seq<Entry>
    decreases g.len(),
{
    if g.len() == 0 {
        Seq::empty()
    } else {
        ungrouped(g.drop_last()) + g.last().1.map_values(|id: u64| (g.last().0, id))
    }
}

pub open spec fn ids_bytes(ids: Seq<u64>) -> Seq<u8>
    decreases ids.len(),
{
    if ids.len() == 0 {
        Seq::empty()
    } else {
        spec_u64_to_le_bytes(ids[0]) + ids_bytes(ids.drop_first())
    }
}

pub open spec fn group_bytes(g: Group) -> Seq<u8> {
    value_bytes(g.0) + (spec_u64_to_le_bytes(g.1.len() as u64) + ids_bytes(g.1))
}

pub open spec fn groups_bytes(g: Seq<Group>) -> Seq<u8>
    decreases g.len(),
{
    if g.len() == 0 {
        Seq::empty()
    } else {
        group_bytes(g[0]) + groups_bytes(g.drop_first())
    }
}

/// Entries as bytes: how many keys, then each key, how many ids, and the ids.
pub open spec fn entries_bytes(g: Seq<Group>) -> Seq<u8> {
    spec_u64_to_le_bytes(g.len() as u64) + groups_bytes(g)
}

pub open spec fn word_at(s: Seq<u8>) -> Option<u64> {
    if s.len() < 8 {
        None
    } else {
        Some(spec_u64_from_le_bytes(s.take(8)))
    }
}

pub open spec fn ids_at(s: Seq<u8>, n: nat) -> Option<(Seq<u64>, nat)>
    decreases n,
{
    if n == 0 {
        Some((Seq::empty(), 0))
    } else {
        match word_at(s) {
            None => None,
            Some(id) => match ids_at(s.skip(8), (n - 1) as nat) {
                None => None,
                Some((ids, used)) => Some((seq![id] + ids, 8 + used)),
            },
        }
    }
}

pub open spec fn group_at(s: Seq<u8>) -> Option<(Group, nat)> {
    match value_at(s, MAX_NESTING as nat) {
        None => None,
        Some((key, j)) => match word_at(s.skip(j as int)) {
            None => None,
            Some(n) => match ids_at(s.skip((j + 8) as int), n as nat) {
                None => None,
                Some((ids, k)) => Some(((key, ids), j + 8 + k)),
            },
        },
    }
}

pub open spec fn groups_at(s: Seq<u8>, n: nat) -> Option<(Seq<Group>, nat)>
    decreases n,
{
    if n == 0 {
        Some((Seq::empty(), 0))
    } else {
        match group_at(s) {
            None => None,
            Some((g, j)) => match groups_at(s.skip(j as int), (n - 1) as nat) {
                None => None,
                Some((rest, used)) => Some((seq![g] + rest, j + used)),
            },
        }
    }
}

/// The groups that bytes hold, where they hold nothing else.
pub open spec fn entries_read(s: Seq<u8>) -> Option<Seq<Group>> {
    match word_at(s) {
        None => None,
        Some(n) => match groups_at(s.skip(8), n as nat) {
            None => None,
            Some((g, used)) => if used == s.len() - 8 {
                Some(g)
            } else {
                None
            },
        },
    }
}

proof fn lemma_ids_round_trip(ids: Seq<u64>, rest: Seq<u8>)
    ensures
        ids_at(ids_bytes(ids) + rest, ids.len()) == Some((ids, ids_bytes(ids).len())),
    decreases ids.len(),
{
    lemma_auto_spec_u64_to_from_le_bytes();
    if ids.len() > 0 {
        let others = ids.drop_first();
        let s = ids_bytes(ids) + rest;
        let w = spec_u64_to_le_bytes(ids[0]);
        assert(s.take(8) =~= w);
        assert(s.skip(8) =~= ids_bytes(others) + rest);
        lemma_ids_round_trip(others, rest);
        assert(seq![ids[0]] + others =~= ids);
    } else {
        assert(ids =~= Seq::empty());
    }
}

/// Whether every key and every count can be written.
pub open spec fn storable(g: Seq<Group>) -> bool {
    g.len() <= u64::MAX && forall|i: int|
        0 <= i < g.len() ==> value_sized((#[trigger] g[i]).0) && nested_within(
            g[i].0,
            MAX_NESTING as nat,
        ) && g[i].1.len() <= u64::MAX
}

proof fn lemma_group_round_trip(g: Group, rest: Seq<u8>)
    requires
        value_sized(g.0),
        nested_within(g.0, MAX_NESTING as nat),
        g.1.len() <= u64::MAX,
    ensures
        group_at(group_bytes(g) + rest) == Some((g, group_bytes(g).len())),
{
    lemma_auto_spec_u64_to_from_le_bytes();
    let key = value_bytes(g.0);
    let n = spec_u64_to_le_bytes(g.1.len() as u64);
    let s = group_bytes(g) + rest;
    assert(s =~= key + (n + (ids_bytes(g.1) + rest)));
    lemma_value_round_trip(g.0, MAX_NESTING as nat, n + (ids_bytes(g.1) + rest));
    let t = s.skip(key.len() as int);
    assert(t.take(8) =~= n);
    assert(s.skip((key.len() + 8) as int) =~= ids_bytes(g.1) + rest);
    lemma_ids_round_trip(g.1, rest);
}

proof fn lemma_groups_round_trip(g: Seq<Group>, rest: Seq<u8>)
    requires
        storable(g),
    ensures
        groups_at(groups_bytes(g) + rest, g.len()) == Some((g, groups_bytes(g).len())),
    decreases g.len(),
{
    if g.len() > 0 {
        let others = g.drop_first();
        let s = groups_bytes(g) + rest;
        let head = group_bytes(g[0]);
        let tail = groups_bytes(others) + rest;
        assert(s =~= head + tail);
        lemma_group_round_trip(g[0], tail);
        assert(s.skip(head.len() as int) =~= tail);
        assert(storable(others)) by {
            assert forall|i: int| 0 <= i < others.len() implies value_sized(
                (#[trigger] others[i]).0,
            ) && nested_within(others[i].0, MAX_NESTING as nat) && others[i].1.len() <= u64::MAX by {
                assert(others[i] == g[i + 1]);
            }
        }
        lemma_groups_round_trip(others, rest);
        assert(seq![g[0]] + others =~= g);
    } else {
        assert(g =~= Seq::empty());
    }
}

/// Cached entries read back as they were written.
pub proof fn cached_entries_read_back(g: Seq<Group>)
    requires
        storable(g),
    ensures
        entries_read(entries_bytes(g)) == Some(g),
{
    lemma_auto_spec_u64_to_from_le_bytes();
    let s = entries_bytes(g);
    let none = Seq::<u8>::empty();
    assert(s.take(8) =~= spec_u64_to_le_bytes(g.len() as u64));
    assert(s.skip(8) =~= groups_bytes(g) + none);
    lemma_groups_round_trip(g, none);
}

/// Cached entries with anything after them are not read.
pub proof fn trailing_bytes_are_refused(g: Seq<Group>, more: Seq<u8>)
    requires
        storable(g),
        more.len() > 0,
    ensures
        entries_read(entries_bytes(g) + more) is None,
{
    lemma_auto_spec_u64_to_from_le_bytes();
    let s = entries_bytes(g) + more;
    assert(s.take(8) =~= spec_u64_to_le_bytes(g.len() as u64));
    assert(s.skip(8) =~= groups_bytes(g) + more);
    lemma_groups_round_trip(g, more);
}

/// Whether every key and every count has a size that can be written.
pub open spec fn sized(g: Seq<Group>) -> bool {
    g.len() <= u64::MAX && forall|i: int|
        0 <= i < g.len() ==> value_sized((#[trigger] g[i]).0) && g[i].1.len() <= u64::MAX
}

proof fn lemma_group_or_none(g: Group, rest: Seq<u8>)
    requires
        value_sized(g.0),
        g.1.len() <= u64::MAX,
    ensures
        group_at(group_bytes(g) + rest) matches Some((r, k)) ==> r == g && k == group_bytes(g).len(),
{
    lemma_auto_spec_u64_to_from_le_bytes();
    let key = value_bytes(g.0);
    let n = spec_u64_to_le_bytes(g.1.len() as u64);
    let s = group_bytes(g) + rest;
    assert(s =~= key + (n + (ids_bytes(g.1) + rest)));
    lemma_value_or_none(g.0, MAX_NESTING as nat, n + (ids_bytes(g.1) + rest));
    let t = s.skip(key.len() as int);
    assert(t.take(8) =~= n);
    assert(s.skip((key.len() + 8) as int) =~= ids_bytes(g.1) + rest);
    lemma_ids_round_trip(g.1, rest);
}

proof fn lemma_groups_or_none(g: Seq<Group>, rest: Seq<u8>)
    requires
        sized(g),
    ensures
        groups_at(groups_bytes(g) + rest, g.len()) matches Some((r, k)) ==> r == g && k
            == groups_bytes(g).len(),
    decreases g.len(),
{
    if g.len() > 0 {
        let others = g.drop_first();
        let s = groups_bytes(g) + rest;
        let head = group_bytes(g[0]);
        let tail = groups_bytes(others) + rest;
        assert(s =~= head + tail);
        lemma_group_or_none(g[0], tail);
        assert(s.skip(head.len() as int) =~= tail);
        assert forall|i: int| 0 <= i < others.len() implies value_sized((#[trigger] others[i]).0)
            && others[i].1.len() <= u64::MAX by {
            assert(others[i] == g[i + 1]);
        }
        lemma_groups_or_none(others, rest);
        assert(seq![g[0]] + others =~= g);
    } else {
        assert(g =~= Seq::empty());
    }
}

/// Cached entries read back as they were written, or, where a key nests too deep to be
/// read, not at all: never as others.
pub proof fn cached_entries_read_back_or_not_at_all(g: Seq<Group>)
    requires
        sized(g),
    ensures
        entries_read(entries_bytes(g)) matches Some(r) ==> r == g,
{
    lemma_auto_spec_u64_to_from_le_bytes();
    let s = entries_bytes(g);
    let none = Seq::<u8>::empty();
    assert(s.take(8) =~= spec_u64_to_le_bytes(g.len() as u64));
    assert(s.skip(8) =~= groups_bytes(g) + none);
    lemma_groups_or_none(g, none);
}

/// Entries as bytes, grouped by key: a key with many ids is written once.
pub fn encode_index_entries(entries: &Vec<(Value, Vec<u64>)>) -> (out: Vec<u8>)
    ensures
        out@ == entries_bytes(group_models(entries@)),
        sized(group_models(entries@)),
{
    let ghost all = group_models(entries@);
    let mut out: Vec<u8> = u64_to_le_bytes(entries.len() as u64);
    let ghost head = out@;
    let mut i: usize = 0;
    assert(all.skip(0) =~= all);
    while i < entries.len()
        invariant
            i <= entries@.len(),
            all == group_models(entries@),
            out@ + groups_bytes(all.skip(i as int)) == head + groups_bytes(all),
            forall|k: int|
                0 <= k < i ==> value_sized((#[trigger] all[k]).0) && all[k].1.len() <= u64::MAX,
        decreases entries.len() - i,
    {
        let ghost before = out@;
        let g = &entries[i];
        encode_value(&g.0, &mut out);
        put_bytes(u64_to_le_bytes(g.1.len() as u64).as_slice(), &mut out);
        let ghost ids = g.1@;
        let ghost mid = out@;
        let mut k: usize = 0;
        assert(ids.skip(0) =~= ids);
        while k < g.1.len()
            invariant
                k <= g.1@.len(),
                ids == g.1@,
                out@ + ids_bytes(ids.skip(k as int)) == mid + ids_bytes(ids),
            decreases g.1.len() - k,
        {
            let ghost now = out@;
            put_bytes(u64_to_le_bytes(g.1[k]).as_slice(), &mut out);
            assert(ids.skip(k as int).drop_first() =~= ids.skip(k + 1));
            assert(ids.skip(k as int)[0] == ids[k as int]);
            assert(out@ + ids_bytes(ids.skip(k + 1)) =~= now + ids_bytes(ids.skip(k as int)));
            k += 1;
        }
        proof {
            assert(ids.skip(k as int) =~= Seq::empty());
            assert(out@ =~= out@ + ids_bytes(ids.skip(k as int)));
            assert(out@ =~= before + group_bytes(all[i as int]));
            assert(all.skip(i as int).drop_first() =~= all.skip(i + 1));
            assert(all.skip(i as int)[0] == all[i as int]);
            assert(out@ + groups_bytes(all.skip(i + 1)) =~= before + groups_bytes(
                all.skip(i as int),
            ));
        }
        i += 1;
    }
    assert(all.skip(i as int) =~= Seq::empty());
    assert(out@ =~= out@ + groups_bytes(all.skip(i as int)));
    out
}

fn read_word(buf: &[u8], pos: usize) -> (r: Option<u64>)
    requires
        pos <= buf@.len(),
    ensures
        r == word_at(buf@.skip(pos as int)),
{
    let len: usize = buf.len();
    if len - pos < 8 {
        return None;
    }
    assert(buf@.subrange(pos as int, pos + 8) =~= buf@.skip(pos as int).take(8));
    Some(u64_from_le_bytes(slice_subrange(buf, pos, pos + 8)))
}

fn read_ids(buf: &[u8], pos: usize, n: u64) -> (r: Option<(Vec<u64>, usize)>)
    requires
        pos <= buf@.len(),
    ensures
        match ids_at(buf@.skip(pos as int), n as nat) {
            Some((ids, k)) => r matches Some((v, end)) && v@ == ids && end == pos + k && end
                <= buf@.len(),
            None => r is None,
        },
{
    let ghost s = buf@.skip(pos as int);
    let len: usize = buf.len();
    let mut ids: Vec<u64> = Vec::new();
    let mut at: usize = pos;
    let mut i: u64 = 0;
    proof {
        if let Some((all, k)) = ids_at(s, n as nat) {
            assert(ids@ + all =~= all);
        }
    }
    while i < n
        invariant
            i <= n,
            len == buf@.len(),
            pos <= at <= len,
            s == buf@.skip(pos as int),
            match ids_at(buf@.skip(at as int), (n - i) as nat) {
                Some((rest, k)) => ids_at(s, n as nat) == Some(
                    (ids@ + rest, (at - pos + k) as nat),
                ),
                None => ids_at(s, n as nat) is None,
            },
        decreases n - i,
    {
        let ghost t = buf@.skip(at as int);
        let id = match read_word(buf, at) {
            Some(id) => id,
            None => {
                return None;
            },
        };
        let ghost before = ids@;
        ids.push(id);
        proof {
            assert(buf@.skip(at + 8) =~= t.skip(8));
            if let Some((rest, k)) = ids_at(t.skip(8), (n - i - 1) as nat) {
                assert(before + (seq![id] + rest) =~= ids@ + rest);
            }
        }
        at = at + 8;
        i += 1;
    }
    proof {
        assert(ids_at(buf@.skip(at as int), 0) == Some((Seq::<u64>::empty(), 0nat)));
        assert(ids@ + Seq::<u64>::empty() =~= ids@);
    }
    Some((ids, at))
}

/// What cached entries hold. Nothing where any part does not decode, or where
/// anything follows: the index is then built again from the records.
pub fn decode_index_entries(blob: &[u8]) -> (r: Option<Vec<(Value, Vec<u64>)>>)
    ensures
        match entries_read(blob@) {
            Some(g) => r matches Some(v) && group_models(v@) == g,
            None => r is None,
        },
{
    let len: usize = blob.len();
    assert(blob@.skip(0) =~= blob@);
    let n = match read_word(blob, 0) {
        Some(n) => n,
        None => {
            return None;
        },
    };
    let ghost s = blob@.skip(8);
    let mut out: Vec<(Value, Vec<u64>)> = Vec::new();
    let mut at: usize = 8;
    let mut i: u64 = 0;
    assert(group_models(out@) =~= Seq::empty());
    proof {
        if let Some((all, k)) = groups_at(s, n as nat) {
            assert(group_models(out@) + all =~= all);
        }
    }
    while i < n
        invariant
            i <= n,
            len == blob@.len(),
            8 <= at <= len,
            s == blob@.skip(8),
            word_at(blob@) == Some(n),
            match groups_at(blob@.skip(at as int), (n - i) as nat) {
                Some((rest, k)) => groups_at(s, n as nat) == Some(
                    (group_models(out@) + rest, (at - 8 + k) as nat),
                ),
                None => groups_at(s, n as nat) is None,
            },
        decreases n - i,
    {
        let ghost t = blob@.skip(at as int);
        let (key, next) = match decode_value(blob, at) {
            Some(x) => x,
            None => {
                return None;
            },
        };
        assert(blob@.skip(next as int) =~= t.skip(next - at));
        let count = match read_word(blob, next) {
            Some(c) => c,
            None => {
                return None;
            },
        };
        assert(blob@.skip(next as int).len() >= 8);
        assert(blob@.skip(next + 8) =~= t.skip(next + 8 - at));
        let (ids, end) = match read_ids(blob, next + 8, count) {
            Some(x) => x,
            None => {
                return None;
            },
        };
        let ghost before = group_models(out@);
        let ghost g = (key.model(), ids@);
        out.push((key, ids));
        proof {
            assert(group_models(out@) =~= before.push(g));
            assert(blob@.skip(end as int) =~= t.skip(end - at));
            if let Some((rest, k)) = groups_at(t.skip(end - at), (n - i - 1) as nat) {
                assert(before + (seq![g] + rest) =~= group_models(out@) + rest);
            }
        }
        at = end;
        i += 1;
    }
    proof {
        assert(groups_at(blob@.skip(at as int), 0) == Some((Seq::<Group>::empty(), 0nat)));
        assert(group_models(out@) + Seq::<Group>::empty() =~= group_models(out@));
    }
    if at == len {
        Some(out)
    } else {
        None
    }
}

impl Index {
    /// The entries by key: keys in order, each with its ids.
    pub fn snapshot(&self) -> (out: Vec<(Value, Vec<u64>)>)
        requires
            self.wf(),
        ensures
            ungrouped(group_models(out@)) == self@.entries,
            forall|i: int, j: int|
                #![trigger group_models(out@)[i], group_models(out@)[j]]
                0 <= i < j < out@.len() ==> value_before(
                    group_models(out@)[i].0,
                    group_models(out@)[j].0,
                ),
            forall|i: int|
                0 <= i < out@.len() ==> (#[trigger] group_models(out@)[i]).1.len() > 0,
    {
        let ghost s = self@.entries;
        let mut out: Vec<(Value, Vec<u64>)> = Vec::new();
        let mut i: usize = 0;
        assert(s.take(0) =~= Seq::empty());
        assert(group_models(out@) =~= Seq::empty());
        while i < self.entries.len()
            invariant
                i <= s.len(),
                self.wf(),
                s == self@.entries,
                ungrouped(group_models(out@)) == s.take(i as int),
                i == 0 ==> out@.len() == 0,
                i > 0 ==> out@.len() > 0 && group_models(out@).last().0 == s[i - 1].0,
                forall|a: int, b: int|
                    #![trigger group_models(out@)[a], group_models(out@)[b]]
                    0 <= a < b < out@.len() ==> value_before(
                        group_models(out@)[a].0,
                        group_models(out@)[b].0,
                    ),
                forall|a: int|
                    0 <= a < out@.len() ==> (#[trigger] group_models(out@)[a]).1.len() > 0,
            decreases self.entries.len() - i,
        {
            let e = &self.entries[i];
            let ghost before = group_models(out@);
            let ghost key = e.0.model();
            let ghost n = before.len() as int;
            assert(s[i as int] == (key, e.1));
            assert(s.take(i + 1) =~= s.take(i as int).push(s[i as int]));
            let last: usize = out.len();
            if i > 0 && self.entries[i - 1].0.same(&e.0) {
                let ghost g = before.last();
                out[last - 1].1.push(e.1);
                proof {
                    let after = group_models(out@);
                    assert(after =~= before.update(n - 1, (key, g.1.push(e.1))));
                    assert(after.drop_last() =~= before.drop_last());
                    assert(g.1.push(e.1).map_values(|id: u64| (key, id)) =~= g.1.map_values(
                        |id: u64| (key, id),
                    ).push((key, e.1)));
                    assert(ungrouped(after) =~= ungrouped(before).push((key, e.1)));
                    assert forall|a: int, b: int|
                        #![trigger after[a], after[b]]
                        0 <= a < b < out@.len() implies value_before(after[a].0, after[b].0) by {
                        assert(after[a].0 == before[a].0 && after[b].0 == before[b].0);
                    }
                }
            } else {
                let ids: Vec<u64> = vec![e.1];
                assert(ids@ =~= seq![e.1]);
                out.push((e.0.dup(), ids));
                proof {
                    let after = group_models(out@);
                    assert(after =~= before.push((key, seq![e.1])));
                    assert(after.drop_last() =~= before);
                    assert(seq![e.1].map_values(|id: u64| (key, id)) =~= seq![(key, e.1)]);
                    assert(ungrouped(after) =~= ungrouped(before).push((key, e.1)));
                    assert forall|a: int, b: int|
                        #![trigger after[a], after[b]]
                        0 <= a < b < out@.len() implies value_before(after[a].0, after[b].0) by {
                        if b < n {
                            assert(after[a] == before[a] && after[b] == before[b]);
                        } else {
                            assert(after[a] == before[a]);
                            assert(entry_before(s[i - 1], s[i as int]));
                            if a < n - 1 {
                                assert(value_before(before[a].0, before[n - 1].0));
                                lemma_value_before_transitive(
                                    before[a].0,
                                    before[n - 1].0,
                                    key,
                                );
                            }
                        }
                    }
                }
            }
            i += 1;
        }
        assert(s.take(i as int) =~= s);
        out
    }
}

// -- what an index lists ------------------------------------------------------

/// Whether a record belongs under a key of an index: it has the key as the value of the
/// indexed field, or its items as the values of the indexed fields in their order; and an
/// index over part of a collection keeps it. Null is no value.
pub open spec fn belongs_under(s: ShapeModel, keeps: Keeps, r: RecordModel, key: ValueModel) -> bool {
    match s {
        ShapeModel::Ordinary { field } => field_of(r, field) == Some(key) && !(key is Null),
        ShapeModel::Covering { field, .. } => field_of(r, field) == Some(key) && !(key is Null),
        ShapeModel::Partial { field, condition, .. } => field_of(r, field) == Some(key) && !(
        key is Null) && keeps(condition, r),
        ShapeModel::Composite { fields } => key matches ValueModel::List(vs) && vs.len()
            == fields.len() && forall|i: int|
            #![trigger vs[i]]
            0 <= i < vs.len() ==> field_of(r, fields[i]) == Some(vs[i]) && !(vs[i] is Null),
    }
}

proof fn lemma_values_in(r: RecordModel, fields: Seq<Seq<char>>, vs: Seq<ValueModel>)
    ensures
        values_in(r, fields) == Some(vs) <==> vs.len() == fields.len() && forall|i: int|
            #![trigger vs[i]]
            0 <= i < vs.len() ==> field_of(r, fields[i]) == Some(vs[i]) && !(vs[i] is Null),
    decreases fields.len(),
{
    if fields.len() == 0 {
        assert(vs.len() == 0 ==> vs =~= Seq::empty());
    } else {
        let less = fields.drop_last();
        if vs.len() == fields.len() {
            let some = vs.drop_last();
            lemma_values_in(r, less, some);
            assert(some.push(vs.last()) =~= vs);
            if values_in(r, fields) == Some(vs) {
                let before = values_in(r, less)->Some_0;
                assert(before.push(value_in(r, fields.last())->Some_0).drop_last() =~= before);
                assert forall|i: int| #![trigger vs[i]] 0 <= i < vs.len() implies field_of(
                    r,
                    fields[i],
                ) == Some(vs[i]) && !(vs[i] is Null) by {
                    if i < some.len() {
                        assert(some[i] == vs[i]);
                        assert(less[i] == fields[i]);
                    }
                }
            }
            if forall|i: int|
                #![trigger vs[i]]
                0 <= i < vs.len() ==> field_of(r, fields[i]) == Some(vs[i]) && !(vs[i] is Null) {
                assert forall|i: int| #![trigger some[i]] 0 <= i < some.len() implies field_of(
                    r,
                    less[i],
                ) == Some(some[i]) && !(some[i] is Null) by {
                    assert(some[i] == vs[i]);
                }
                assert(vs[vs.len() - 1] == vs.last());
            }
        } else if values_in(r, fields) == Some(vs) {
            let before = values_in(r, less)->Some_0;
            lemma_values_in(r, less, before);
        }
    }
}

/// Whether ids ascend, none twice.
pub open spec fn ids_ascend(ids: Seq<u64>) -> bool {
    forall|i: int, j: int| #![trigger ids[i], ids[j]] 0 <= i < j < ids.len() ==> ids[i] < ids[j]
}

/// An index that says what the records say lists under a key the records that belong
/// there, all of them and no others, by ascending ids.
pub proof fn an_index_lists_what_belongs(
    m: IndexModel,
    keeps: Keeps,
    t: Records,
    key: ValueModel,
    id: u64,
)
    requires
        index_ok(m),
        faithful(m, keeps, t),
    ensures
        ids_under(m.entries, key).contains(id) <==> t.dom().contains(id) && belongs_under(
            m.shape,
            keeps,
            t[id],
            key,
        ),
        ids_ascend(ids_under(m.entries, key)),
{
    a_faithful_index_finds_what_a_scan_finds(m, keeps, t, key, id);
    if t.dom().contains(id) {
        lemma_belongs_under(m.shape, keeps, t[id], key);
    }
    lemma_ids_ascend(m.entries, key);
}

pub proof fn lemma_belongs_under(s: ShapeModel, keeps: Keeps, r: RecordModel, key: ValueModel)
    ensures
        key_of(s, keeps, r) == Some(key) <==> belongs_under(s, keeps, r, key),
{
    if let ShapeModel::Composite { fields } = s {
        if let ValueModel::List(vs) = key {
            lemma_values_in(r, fields, vs);
        }
        if let Some(vs) = values_in(r, fields) {
            lemma_values_in(r, fields, vs);
        }
    }
}

proof fn lemma_ids_ascend(s: Seq<Entry>, key: ValueModel)
    requires
        entries_ordered(s),
    ensures
        ids_ascend(ids_under(s, key)),
    decreases s.len(),
{
    if s.len() > 0 {
        let rest = s.drop_last();
        assert forall|i: int, j: int|
            #![trigger rest[i], rest[j]]
            0 <= i < j < rest.len() implies entry_before(rest[i], rest[j]) by {
            assert(rest[i] == s[i] && rest[j] == s[j]);
        }
        lemma_ids_ascend(rest, key);
        lemma_ids_under(rest, key);
        if s.last().0 == key {
            let before = ids_under(rest, key);
            let ids = ids_under(s, key);
            assert forall|i: int, j: int|
                #![trigger ids[i], ids[j]]
                0 <= i < j < ids.len() implies ids[i] < ids[j] by {
                assert(ids[i] == before[i]);
                if j < before.len() {
                    assert(ids[j] == before[j]);
                } else {
                    assert(before.contains(before[i]));
                    let k = choose|k: int| 0 <= k < rest.len() && rest[k] == (key, before[i]);
                    assert(s[k] == (key, ids[i]));
                    assert(entry_before(s[k], s[s.len() - 1]));
                    lemma_value_before_total(key, key);
                }
            }
        }
    }
}

/// A range gives the ids of the entries whose keys lie in it, in the order of the
/// entries. A bound that is included is in it, one that is excluded is not, and there is
/// no other limit.
pub proof fn a_range_lists_what_lies_in_it(s: Seq<Entry>, lo: LimitModel, hi: LimitModel)
    ensures
        ids_between(s, lo, hi) == s.filter(
            |e: Entry|
                match lo {
                    LimitModel::Unbounded => true,
                    LimitModel::Included(v) => e.0 == v || value_before(v, e.0),
                    LimitModel::Excluded(v) => value_before(v, e.0),
                } && match hi {
                    LimitModel::Unbounded => true,
                    LimitModel::Included(v) => e.0 == v || value_before(e.0, v),
                    LimitModel::Excluded(v) => value_before(e.0, v),
                },
        ).map_values(|e: Entry| e.1),
    decreases s.len(),
{
    reveal(Seq::filter);
    let inside = |e: Entry|
        match lo {
            LimitModel::Unbounded => true,
            LimitModel::Included(v) => e.0 == v || value_before(v, e.0),
            LimitModel::Excluded(v) => value_before(v, e.0),
        } && match hi {
            LimitModel::Unbounded => true,
            LimitModel::Included(v) => e.0 == v || value_before(e.0, v),
            LimitModel::Excluded(v) => value_before(e.0, v),
        };
    if s.len() > 0 {
        a_range_lists_what_lies_in_it(s.drop_last(), lo, hi);
        let e = s.last();
        if let LimitModel::Included(v) = lo {
            lemma_value_before_total(v, e.0);
        }
        if let LimitModel::Included(v) = hi {
            lemma_value_before_total(v, e.0);
        }
        let before = s.drop_last().filter(inside);
        assert(in_range(lo, hi, e.0) == inside(e));
        if inside(e) {
            assert(s.filter(inside) == before.push(e));
            assert(before.push(e).map_values(|e: Entry| e.1) =~= before.map_values(
                |e: Entry| e.1,
            ).push(e.1));
        } else {
            assert(s.filter(inside) == before);
        }
    } else {
        assert(s.filter(inside).map_values(|e: Entry| e.1) =~= Seq::empty());
    }
}

/// An index in order has as many keys as there are different ones among its entries.
pub proof fn keys_are_counted_once(s: Seq<Entry>)
    requires
        entries_ordered(s),
    ensures
        keys_in(s) == s.map_values(|e: Entry| e.0).to_set().len(),
    decreases s.len(),
{
    let keys = s.map_values(|e: Entry| e.0);
    vstd::seq_lib::seq_to_set_is_finite(keys);
    if s.len() == 0 {
        assert(keys.to_set() =~= Set::empty());
    } else {
        let rest = s.drop_last();
        let less = rest.map_values(|e: Entry| e.0);
        let key = s.last().0;
        assert forall|i: int, j: int|
            #![trigger rest[i], rest[j]]
            0 <= i < j < rest.len() implies entry_before(rest[i], rest[j]) by {
            assert(rest[i] == s[i] && rest[j] == s[j]);
        }
        keys_are_counted_once(rest);
        vstd::seq_lib::seq_to_set_is_finite(less);
        assert(keys =~= less.push(key));
        assert(keys.to_set() =~= less.to_set().insert(key)) by {
            assert forall|k: ValueModel| keys.to_set().contains(k) <==> less.to_set().insert(
                key,
            ).contains(k) by {
                if keys.contains(k) {
                    let i = choose|i: int| 0 <= i < keys.len() && keys[i] == k;
                    if i < less.len() {
                        assert(less[i] == k);
                    }
                }
                if less.contains(k) {
                    let i = choose|i: int| 0 <= i < less.len() && less[i] == k;
                    assert(keys[i] == k);
                }
                assert(keys[less.len() as int] == key);
            }
        }
        if s.len() > 1 && s[s.len() - 2].0 == key {
            assert(less[less.len() - 1] == key);
            assert(less.contains(key));
        } else if less.contains(key) {
            let i = choose|i: int| 0 <= i < less.len() && less[i] == key;
            let n = s.len() - 2;
            assert(s[i].0 == key);
            if i < n {
                assert(entry_before(s[i], s[n]));
                assert(entry_before(s[n], s[n + 1]));
                lemma_value_before_total(key, s[n].0);
            }
        }
    }
}

} // verus!
