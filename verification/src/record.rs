//! Records: named values.

use vstd::prelude::*;
use crate::assoc::find;
use crate::text::{
    lemma_text_before_total, lemma_text_before_transitive, str_eq, str_lt, text_before,
};
use crate::value::{Value, ValueModel};

verus! {

/// A record: values by field name, kept in name order.
#[derive(Debug, PartialEq, Eq)]
pub struct Record {
    entries: Vec<(String, Value)>,
}

/// What a [`Record`] holds: names and values in the order they are kept.
pub type RecordModel = Seq<(Seq<char>, ValueModel)>;

/// The value of the first entry named `name`.
pub open spec fn field_of(r: RecordModel, name: Seq<char>) -> Option<ValueModel>
    decreases r.len(),
{
    if r.len() == 0 {
        None
    } else if r[0].0 == name {
        Some(r[0].1)
    } else {
        field_of(r.drop_first(), name)
    }
}

/// A record is searched as any list of pairs is.
pub proof fn lemma_field_is_found(r: RecordModel, name: Seq<char>)
    ensures
        field_of(r, name) == find(r, name),
    decreases r.len(),
{
    if r.len() > 0 {
        lemma_field_is_found(r.drop_first(), name);
    }
}

proof fn lemma_field_at(r: RecordModel, name: Seq<char>, i: int)
    requires
        0 <= i < r.len(),
        r[i].0 == name,
        forall|k: int| 0 <= k < i ==> (#[trigger] r[k]).0 != name,
    ensures
        field_of(r, name) == Some(r[i].1),
    decreases i,
{
    if i > 0 {
        assert(r.drop_first()[i - 1] == r[i]);
        assert forall|k: int| 0 <= k < i - 1 implies (#[trigger] r.drop_first()[k]).0 != name by {
            assert(r.drop_first()[k] == r[k + 1]);
        }
        lemma_field_at(r.drop_first(), name, i - 1);
    }
}

proof fn lemma_field_absent(r: RecordModel, name: Seq<char>)
    requires
        forall|k: int| 0 <= k < r.len() ==> (#[trigger] r[k]).0 != name,
    ensures
        field_of(r, name) is None,
    decreases r.len(),
{
    if r.len() > 0 {
        assert forall|k: int| 0 <= k < r.len() - 1 implies (#[trigger] r.drop_first()[k]).0
            != name by {
            assert(r.drop_first()[k] == r[k + 1]);
        }
        lemma_field_absent(r.drop_first(), name);
    }
}

proof fn lemma_field_update(r: RecordModel, i: int, v: ValueModel, other: Seq<char>)
    requires
        0 <= i < r.len(),
        r[i].0 != other,
    ensures
        field_of(r.update(i, (r[i].0, v)), other) == field_of(r, other),
    decreases r.len(),
{
    let u = r.update(i, (r[i].0, v));
    if i > 0 {
        assert(u.drop_first() =~= r.drop_first().update(i - 1, (r[i].0, v)));
        lemma_field_update(r.drop_first(), i - 1, v, other);
    } else {
        assert(u.drop_first() =~= r.drop_first());
    }
}

proof fn lemma_field_insert(r: RecordModel, i: int, e: (Seq<char>, ValueModel), other: Seq<char>)
    requires
        0 <= i <= r.len(),
        e.0 != other,
    ensures
        field_of(r.insert(i, e), other) == field_of(r, other),
    decreases r.len(),
{
    let u = r.insert(i, e);
    if i > 0 {
        assert(u.drop_first() =~= r.drop_first().insert(i - 1, e));
        lemma_field_insert(r.drop_first(), i - 1, e, other);
    } else {
        assert(u.drop_first() =~= r);
    }
}

/// Whether names stand in order, none twice.
pub open spec fn named_in_order(r: RecordModel) -> bool {
    forall|i: int, j: int|
        #![trigger r[i], r[j]]
        0 <= i < j < r.len() ==> text_before(r[i].0, r[j].0)
}

proof fn lemma_insert_in_order(r: RecordModel, at: int, e: (Seq<char>, ValueModel))
    requires
        named_in_order(r),
        0 <= at <= r.len(),
        forall|k: int| 0 <= k < at ==> text_before((#[trigger] r[k]).0, e.0),
        at < r.len() ==> !text_before(r[at].0, e.0) && r[at].0 != e.0,
    ensures
        named_in_order(r.insert(at, e)),
{
    let after = r.insert(at, e);
    assert forall|i: int, j: int| 0 <= i < j < after.len() implies text_before(
        (#[trigger] after[i]).0,
        (#[trigger] after[j]).0,
    ) by {
        if j == at {
            assert(after[i] == r[i]);
        } else if i == at {
            assert(after[j] == r[j - 1]);
            lemma_text_before_total(e.0, r[at].0);
            if j - 1 > at {
                lemma_text_before_transitive(e.0, r[at].0, r[j - 1].0);
            }
        } else {
            let x = if i < at { i } else { i - 1 };
            let y = if j < at { j } else { j - 1 };
            assert(after[i] == r[x] && after[j] == r[y]);
        }
    }
}

/// Records whose names stand in order and that agree on every field hold the
/// same: a record is determined by its fields.
pub proof fn fields_determine_a_record(a: RecordModel, b: RecordModel)
    requires
        named_in_order(a),
        named_in_order(b),
        forall|name: Seq<char>| #[trigger] field_of(a, name) == field_of(b, name),
    ensures
        a == b,
    decreases a.len(),
{
    if a.len() == 0 {
        if b.len() > 0 {
            assert(field_of(b, b[0].0) is Some);
            assert(field_of(a, b[0].0) is None);
        }
        assert(a =~= b);
    } else {
        assert(field_of(a, a[0].0) == Some(a[0].1));
        if b.len() == 0 {
            assert(field_of(b, a[0].0) is None);
        } else {
            assert(field_of(b, b[0].0) == Some(b[0].1));
            assert(field_of(a, b[0].0) == field_of(b, b[0].0));
            lemma_text_before_total(a[0].0, b[0].0);
            if a[0].0 != b[0].0 {
                if text_before(a[0].0, b[0].0) {
                    assert forall|k: int| 0 <= k < b.len() implies (#[trigger] b[k]).0
                        != a[0].0 by {
                        if k > 0 {
                            lemma_text_before_transitive(a[0].0, b[0].0, b[k].0);
                            lemma_text_before_total(a[0].0, b[k].0);
                        }
                    }
                    lemma_field_absent(b, a[0].0);
                } else {
                    assert forall|k: int| 0 <= k < a.len() implies (#[trigger] a[k]).0
                        != b[0].0 by {
                        if k > 0 {
                            lemma_text_before_transitive(b[0].0, a[0].0, a[k].0);
                            lemma_text_before_total(b[0].0, a[k].0);
                        }
                    }
                    lemma_field_absent(a, b[0].0);
                }
            }
            let x = a.drop_first();
            let y = b.drop_first();
            lemma_tail_in_order(a);
            lemma_tail_in_order(b);
            assert forall|name: Seq<char>| #[trigger] field_of(x, name) == field_of(y, name) by {
                assert(field_of(a, name) == field_of(b, name));
                if name == a[0].0 {
                    lemma_head_not_in_tail(a);
                    lemma_head_not_in_tail(b);
                }
            }
            fields_determine_a_record(x, y);
            assert(a =~= seq![a[0]] + x);
            assert(b =~= seq![b[0]] + y);
        }
    }
}

proof fn lemma_tail_in_order(r: RecordModel)
    requires
        r.len() > 0,
        named_in_order(r),
    ensures
        named_in_order(r.drop_first()),
{
    let t = r.drop_first();
    assert forall|i: int, j: int| 0 <= i < j < t.len() implies text_before(
        (#[trigger] t[i]).0,
        (#[trigger] t[j]).0,
    ) by {
        assert(t[i] == r[i + 1] && t[j] == r[j + 1]);
    }
}

proof fn lemma_head_not_in_tail(r: RecordModel)
    requires
        r.len() > 0,
        named_in_order(r),
    ensures
        field_of(r.drop_first(), r[0].0) is None,
{
    let t = r.drop_first();
    assert forall|k: int| 0 <= k < t.len() implies (#[trigger] t[k]).0 != r[0].0 by {
        assert(t[k] == r[k + 1]);
        lemma_text_before_total(r[0].0, r[k + 1].0);
    }
    lemma_field_absent(t, r[0].0);
}

impl Record {
    /// Names stand in order, none twice.
    #[verifier::type_invariant]
    pub open spec fn wf(self) -> bool {
        named_in_order(self.model())
    }

    pub closed spec fn model(&self) -> RecordModel {
        self.entries@.map_values(|e: (String, Value)| (e.0@, e.1.model()))
    }

    /// The value of a field.
    pub open spec fn field(&self, name: Seq<char>) -> Option<ValueModel> {
        field_of(self.model(), name)
    }

    /// A record without fields.
    pub fn new() -> (r: Record)
        ensures
            r.model() == RecordModel::empty(),
    {
        let entries: Vec<(String, Value)> = Vec::new();
        assert(entries@.map_values(|e: (String, Value)| (e.0@, e.1.model()))
            =~= RecordModel::empty());
        Record { entries }
    }

    pub fn len(&self) -> (n: usize)
        ensures
            n == self.model().len(),
    {
        self.entries.len()
    }

    /// The name of the entry at `i`.
    pub fn name_at(&self, i: usize) -> (name: &str)
        requires
            i < self.model().len(),
        ensures
            name@ == self.model()[i as int].0,
    {
        self.entries[i].0.as_str()
    }

    /// The value of the entry at `i`.
    pub fn value_at(&self, i: usize) -> (v: &Value)
        requires
            i < self.model().len(),
        ensures
            v.model() == self.model()[i as int].1,
    {
        &self.entries[i].1
    }

    fn position(&self, name: &str) -> (i: usize)
        ensures
            i <= self.model().len(),
            i < self.model().len() ==> self.model()[i as int].0 == name@,
            forall|k: int| 0 <= k < i ==> (#[trigger] self.model()[k]).0 != name@,
    {
        let mut i: usize = 0;
        while i < self.entries.len()
            invariant
                i <= self.entries.len(),
                self.model().len() == self.entries@.len(),
                forall|k: int| 0 <= k < i ==> (#[trigger] self.model()[k]).0 != name@,
            decreases self.entries.len() - i,
        {
            if str_eq(self.entries[i].0.as_str(), name) {
                return i;
            }
            i += 1;
        }
        i
    }

    /// The value of a field, if the record has it.
    pub fn get(&self, name: &str) -> (r: Option<&Value>)
        ensures
            match self.field(name@) {
                Some(v) => r matches Some(w) && w.model() == v,
                None => r is None,
            },
    {
        let i = self.position(name);
        if i < self.entries.len() {
            proof {
                lemma_field_at(self.model(), name@, i as int);
            }
            Some(&self.entries[i].1)
        } else {
            proof {
                lemma_field_absent(self.model(), name@);
            }
            None
        }
    }

    /// The record with a field given a value, whether or not it had it.
    pub fn with(self, name: &str, value: Value) -> (r: Record)
        ensures
            r.field(name@) == Some(value.model()),
            forall|other: Seq<char>| other != name@ ==> #[trigger] r.field(other) == self.field(
                other,
            ),
            self.field(name@) is Some ==> r.model().len() == self.model().len(),
            self.field(name@) is None ==> r.model().len() == self.model().len() + 1,
    {
        proof {
            use_type_invariant(&self);
        }
        let ghost before = self.model();
        let ghost v = value.model();
        let i = self.position(name);
        let Record { entries } = self;
        let mut entries = entries;
        if i < entries.len() {
            proof {
                lemma_field_at(before, name@, i as int);
            }
            entries.set(i, (name.to_owned(), value));
            let ghost after = before.update(i as int, (name@, v));
            assert(entries@.map_values(|e: (String, Value)| (e.0@, e.1.model())) =~= after);
            assert(named_in_order(after));
            proof {
                assert forall|k: int| 0 <= k < i implies (#[trigger] after[k]).0 != name@ by {
                    assert(after[k] == before[k]);
                }
                lemma_field_at(after, name@, i as int);
                assert forall|other: Seq<char>| other != name@ implies #[trigger] field_of(
                    after,
                    other,
                ) == field_of(before, other) by {
                    lemma_field_update(before, i as int, v, other);
                }
            }
            Record { entries }
        } else {
            proof {
                lemma_field_absent(before, name@);
            }
            let mut at: usize = 0;
            while at < entries.len() && str_lt(entries[at].0.as_str(), name)
                invariant
                    at <= entries.len(),
                    before == entries@.map_values(|e: (String, Value)| (e.0@, e.1.model())),
                    forall|k: int| 0 <= k < at ==> text_before((#[trigger] before[k]).0, name@),
                decreases entries.len() - at,
            {
                assert(before[at as int].0 == entries@[at as int].0@);
                at += 1;
            }
            proof {
                if at < before.len() {
                    assert(before[at as int].0 == entries@[at as int].0@);
                }
            }
            entries.insert(at, (name.to_owned(), value));
            let ghost after = before.insert(at as int, (name@, v));
            assert(entries@.map_values(|e: (String, Value)| (e.0@, e.1.model())) =~= after);
            proof {
                lemma_insert_in_order(before, at as int, (name@, v));
                assert forall|k: int| 0 <= k < at implies (#[trigger] after[k]).0 != name@ by {
                    assert(after[k] == before[k]);
                }
                lemma_field_at(after, name@, at as int);
                assert forall|other: Seq<char>| other != name@ implies #[trigger] field_of(
                    after,
                    other,
                ) == field_of(before, other) by {
                    lemma_field_insert(before, at as int, (name@, v), other);
                }
            }
            Record { entries }
        }
    }

    /// Give a field a value, whether or not the record had it.
    pub fn set(&mut self, name: &str, value: Value)
        ensures
            final(self).field(name@) == Some(value.model()),
            forall|other: Seq<char>| other != name@ ==> #[trigger] final(self).field(other) == old(self).field(other),
            old(self).field(name@) is Some ==> final(self).model().len() == old(self).model().len(),
            old(self).field(name@) is None ==> final(self).model().len() == old(self).model().len()
                + 1,
    {
        let mut taken = Record::new();
        std::mem::swap(self, &mut taken);
        *self = taken.with(name, value);
    }

    /// A copy that holds the same.
    pub fn dup(&self) -> (r: Record)
        ensures
            r.model() == self.model(),
    {
        let mut entries: Vec<(String, Value)> = Vec::new();
        let mut i: usize = 0;
        while i < self.entries.len()
            invariant
                i <= self.entries.len(),
                entries@.len() == i,
                forall|k: int|
                    0 <= k < i ==> (#[trigger] entries@[k]).0@ == self.entries@[k].0@
                        && entries@[k].1.model() == self.entries@[k].1.model(),
            decreases self.entries.len() - i,
        {
            entries.push((self.entries[i].0.clone(), self.entries[i].1.dup()));
            i += 1;
        }
        proof {
            use_type_invariant(self);
        }
        assert(entries@.map_values(|e: (String, Value)| (e.0@, e.1.model())) =~= self.model());
        Record { entries }
    }

    /// Whether two records hold the same.
    pub fn same(&self, other: &Record) -> (r: bool)
        ensures
            r == (self.model() == other.model()),
    {
        if self.entries.len() != other.entries.len() {
            assert(self.model().len() != other.model().len());
            return false;
        }
        let mut i: usize = 0;
        while i < self.entries.len()
            invariant
                i <= self.entries.len(),
                self.entries@.len() == other.entries@.len(),
                forall|k: int| 0 <= k < i ==> #[trigger] self.model()[k] == other.model()[k],
            decreases self.entries.len() - i,
        {
            if !str_eq(self.entries[i].0.as_str(), other.entries[i].0.as_str())
                || !self.entries[i].1.same(&other.entries[i].1) {
                assert(self.model()[i as int] != other.model()[i as int]);
                return false;
            }
            i += 1;
        }
        assert(self.model() =~= other.model());
        true
    }
}

/// What each record holds.
pub open spec fn record_models(s: Seq<Record>) -> Seq<RecordModel> {
    s.map_values(|r: Record| r.model())
}

} // verus!
