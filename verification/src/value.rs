//! The values a record holds.

use vstd::prelude::*;
use crate::text::{
    bytes_before, bytes_eq, bytes_lt, goes_before, lemma_bytes_before_irreflexive,
    lemma_bytes_before_total, lemma_bytes_before_transitive, lemma_text_before_total,
    lemma_text_before_transitive, str_eq, str_lt, text_before, texts_sort_as_in_a_dictionary,
};

verus! {

/// One value. A floating-point number is held by its IEEE 754 bits.
#[derive(Debug, PartialEq, Eq)]
pub enum Value {
    Null,
    Bool(bool),
    I64(i64),
    U64(u64),
    F64(u64),
    Str(String),
    Bytes(Vec<u8>),
    List(Vec<Value>),
}

/// What a [`Value`] means.
pub enum ValueModel {
    Null,
    Bool(bool),
    I64(i64),
    U64(u64),
    F64(u64),
    Str(Seq<char>),
    Bytes(Seq<u8>),
    List(Seq<ValueModel>),
}

impl Value {
    pub open spec fn model(&self) -> ValueModel
        decreases self,
    {
        match self {
            Value::Null => ValueModel::Null,
            Value::Bool(b) => ValueModel::Bool(*b),
            Value::I64(n) => ValueModel::I64(*n),
            Value::U64(n) => ValueModel::U64(*n),
            Value::F64(bits) => ValueModel::F64(*bits),
            Value::Str(s) => ValueModel::Str(s@),
            Value::Bytes(b) => ValueModel::Bytes(b@),
            Value::List(items) => ValueModel::List(
                Seq::new(
                    items@.len(),
                    |i: int|
                        if 0 <= i < items@.len() {
                            items@[i].model()
                        } else {
                            ValueModel::Null
                        },
                ),
            ),
        }
    }

    /// A copy that means the same.
    pub fn dup(&self) -> (r: Value)
        ensures
            r.model() == self.model(),
        decreases self,
    {
        match self {
            Value::Null => Value::Null,
            Value::Bool(b) => Value::Bool(*b),
            Value::I64(n) => Value::I64(*n),
            Value::U64(n) => Value::U64(*n),
            Value::F64(bits) => Value::F64(*bits),
            Value::Str(s) => Value::Str(s.clone()),
            Value::Bytes(b) => Value::Bytes(b.clone()),
            Value::List(items) => {
                let mut out: Vec<Value> = Vec::new();
                let mut i: usize = 0;
                while i < items.len()
                    invariant
                        i <= items.len(),
                        out@.len() == i,
                        *self == Value::List(*items),
                        forall|k: int| 0 <= k < i ==> out@[k].model() == items@[k].model(),
                    decreases items.len() - i,
                {
                    assert(decreases_to!(self => self->List_0));
                    let item = items[i].dup();
                    out.push(item);
                    i += 1;
                }
                let r = Value::List(out);
                assert(r.model()->List_0 =~= self.model()->List_0);
                r
            },
        }
    }

    /// Whether two values mean the same.
    pub fn same(&self, other: &Value) -> (r: bool)
        ensures
            r == (self.model() == other.model()),
        decreases self,
    {
        match (self, other) {
            (Value::Null, Value::Null) => true,
            (Value::Bool(a), Value::Bool(b)) => *a == *b,
            (Value::I64(a), Value::I64(b)) => *a == *b,
            (Value::U64(a), Value::U64(b)) => *a == *b,
            (Value::F64(a), Value::F64(b)) => *a == *b,
            (Value::Str(a), Value::Str(b)) => str_eq(a.as_str(), b.as_str()),
            (Value::Bytes(a), Value::Bytes(b)) => bytes_eq(a.as_slice(), b.as_slice()),
            (Value::List(a), Value::List(b)) => {
                if a.len() != b.len() {
                    assert(self.model()->List_0.len() != other.model()->List_0.len());
                    return false;
                }
                let mut i: usize = 0;
                while i < a.len()
                    invariant
                        i <= a.len(),
                        a@.len() == b@.len(),
                        *self == Value::List(*a),
                        *other == Value::List(*b),
                        forall|k: int| 0 <= k < i ==> a@[k].model() == b@[k].model(),
                    decreases a.len() - i,
                {
                    if !a[i].same(&b[i]) {
                        assert(self.model()->List_0[i as int] != other.model()->List_0[i as int]);
                        return false;
                    }
                    i += 1;
                }
                assert(self.model()->List_0 =~= other.model()->List_0);
                true
            },
            _ => false,
        }
    }

    /// Text as a value.
    pub fn text(s: &str) -> (r: Value)
        ensures
            r.model() == ValueModel::Str(s@),
    {
        Value::Str(s.to_owned())
    }

    pub fn is_null(&self) -> (r: bool)
        ensures
            r == (self.model() is Null),
    {
        match self {
            Value::Null => true,
            _ => false,
        }
    }
}

/// Where a variant stands among the others.
pub open spec fn rank(v: ValueModel) -> int {
    match v {
        ValueModel::Null => 0,
        ValueModel::Bool(_) => 1,
        ValueModel::I64(_) => 2,
        ValueModel::U64(_) => 3,
        ValueModel::F64(_) => 4,
        ValueModel::Str(_) => 5,
        ValueModel::Bytes(_) => 6,
        ValueModel::List(_) => 7,
    }
}

/// The position of a floating-point number, given by its bits, in the IEEE 754
/// total order: a set sign bit reverses the magnitude.
pub open spec fn float_position(bits: u64) -> int {
    if bits >= 0x8000_0000_0000_0000 {
        -(bits as int)
    } else {
        bits as int
    }
}

/// The order values sort in: by variant, then by content.
pub open spec fn value_before(a: ValueModel, b: ValueModel) -> bool
    decreases a,
{
    match (a, b) {
        (ValueModel::Bool(x), ValueModel::Bool(y)) => !x && y,
        (ValueModel::I64(x), ValueModel::I64(y)) => x < y,
        (ValueModel::U64(x), ValueModel::U64(y)) => x < y,
        (ValueModel::F64(x), ValueModel::F64(y)) => float_position(x) < float_position(y),
        (ValueModel::Str(x), ValueModel::Str(y)) => text_before(x, y),
        (ValueModel::Bytes(x), ValueModel::Bytes(y)) => bytes_before(x, y),
        (ValueModel::List(x), ValueModel::List(y)) => list_before(x, y),
        _ => rank(a) < rank(b),
    }
}

/// Lists sort item by item, a prefix before what extends it.
pub open spec fn list_before(a: Seq<ValueModel>, b: Seq<ValueModel>) -> bool
    decreases a,
{
    if b.len() == 0 {
        false
    } else if a.len() == 0 {
        true
    } else if a[0] != b[0] {
        value_before(a[0], b[0])
    } else {
        list_before(a.drop_first(), b.drop_first())
    }
}

/// `value_before` is a strict total order.
pub proof fn lemma_value_before_total(a: ValueModel, b: ValueModel)
    ensures
        value_before(a, b) || value_before(b, a) || a == b,
        !(value_before(a, b) && value_before(b, a)),
        !value_before(a, a),
    decreases a,
{
    match (a, b) {
        (ValueModel::Str(x), ValueModel::Str(y)) => {
            lemma_text_before_total(x, y);
        },
        (ValueModel::Bytes(x), ValueModel::Bytes(y)) => {
            lemma_bytes_before_total(x, y);
            lemma_bytes_before_irreflexive(x);
            if bytes_before(x, y) && bytes_before(y, x) {
                lemma_bytes_before_transitive(x, y, x);
            }
        },
        (ValueModel::List(x), ValueModel::List(y)) => {
            lemma_list_before_total(x, y);
        },
        _ => {},
    }
    match a {
        ValueModel::Str(x) => {
            lemma_text_before_total(x, x);
        },
        ValueModel::Bytes(x) => {
            lemma_bytes_before_irreflexive(x);
        },
        ValueModel::List(x) => {
            lemma_list_before_total(x, x);
        },
        _ => {},
    }
}

/// `list_before` is a strict total order.
pub proof fn lemma_list_before_total(a: Seq<ValueModel>, b: Seq<ValueModel>)
    ensures
        list_before(a, b) || list_before(b, a) || a == b,
        !(list_before(a, b) && list_before(b, a)),
        !list_before(a, a),
    decreases a,
{
    if a.len() == 0 {
        assert(b.len() == 0 ==> a =~= b);
    } else {
        lemma_list_before_total(a.drop_first(), a.drop_first());
        if b.len() > 0 {
            if a[0] == b[0] {
                lemma_list_before_total(a.drop_first(), b.drop_first());
                if a.drop_first() == b.drop_first() {
                    assert(a =~= seq![a[0]] + a.drop_first());
                    assert(b =~= seq![b[0]] + b.drop_first());
                }
            } else {
                lemma_value_before_total(a[0], b[0]);
            }
        }
    }
}

pub proof fn lemma_value_before_transitive(a: ValueModel, b: ValueModel, c: ValueModel)
    requires
        value_before(a, b),
        value_before(b, c),
    ensures
        value_before(a, c),
    decreases a,
{
    match (a, b, c) {
        (ValueModel::Str(x), ValueModel::Str(y), ValueModel::Str(z)) => {
            lemma_text_before_transitive(x, y, z);
        },
        (ValueModel::Bytes(x), ValueModel::Bytes(y), ValueModel::Bytes(z)) => {
            lemma_bytes_before_transitive(x, y, z);
        },
        (ValueModel::List(x), ValueModel::List(y), ValueModel::List(z)) => {
            lemma_list_before_transitive(x, y, z);
        },
        _ => {},
    }
}

pub proof fn lemma_list_before_transitive(
    a: Seq<ValueModel>,
    b: Seq<ValueModel>,
    c: Seq<ValueModel>,
)
    requires
        list_before(a, b),
        list_before(b, c),
    ensures
        list_before(a, c),
    decreases a,
{
    if a.len() > 0 {
        if a[0] == b[0] && b[0] == c[0] {
            lemma_list_before_transitive(a.drop_first(), b.drop_first(), c.drop_first());
        } else if a[0] != b[0] && b[0] != c[0] {
            lemma_value_before_transitive(a[0], b[0], c[0]);
            lemma_value_before_total(a[0], b[0]);
        }
    }
}

/// The values of a sequence, each by what it means.
pub open spec fn models(s: Seq<Value>) -> Seq<ValueModel> {
    s.map_values(|v: Value| v.model())
}

impl Value {
    fn rank_of(&self) -> (r: u8)
        ensures
            r == rank(self.model()),
    {
        match self {
            Value::Null => 0,
            Value::Bool(_) => 1,
            Value::I64(_) => 2,
            Value::U64(_) => 3,
            Value::F64(_) => 4,
            Value::Str(_) => 5,
            Value::Bytes(_) => 6,
            Value::List(_) => 7,
        }
    }

    /// Whether this value sorts before `other`.
    pub fn before(&self, other: &Value) -> (r: bool)
        ensures
            r == value_before(self.model(), other.model()),
        decreases self,
    {
        match (self, other) {
            (Value::Bool(a), Value::Bool(b)) => !*a && *b,
            (Value::I64(a), Value::I64(b)) => *a < *b,
            (Value::U64(a), Value::U64(b)) => *a < *b,
            (Value::F64(a), Value::F64(b)) => float_before(*a, *b),
            (Value::Str(a), Value::Str(b)) => str_lt(a.as_str(), b.as_str()),
            (Value::Bytes(a), Value::Bytes(b)) => bytes_lt(a.as_slice(), b.as_slice()),
            (Value::List(a), Value::List(b)) => {
                let ghost x = self.model()->List_0;
                let ghost y = other.model()->List_0;
                assert(x.skip(0) =~= x);
                assert(y.skip(0) =~= y);
                let mut i: usize = 0;
                while i < a.len() && i < b.len()
                    invariant
                        i <= a.len(),
                        i <= b.len(),
                        *self == Value::List(*a),
                        *other == Value::List(*b),
                        x == self.model()->List_0,
                        y == other.model()->List_0,
                        list_before(x, y) == list_before(x.skip(i as int), y.skip(i as int)),
                    decreases a.len() - i,
                {
                    assert(decreases_to!(self => self->List_0));
                    assert(x[i as int] == a@[i as int].model());
                    assert(y[i as int] == b@[i as int].model());
                    if !a[i].same(&b[i]) {
                        return a[i].before(&b[i]);
                    }
                    assert(x.skip(i as int).drop_first() =~= x.skip(i + 1));
                    assert(y.skip(i as int).drop_first() =~= y.skip(i + 1));
                    i += 1;
                }
                i < b.len()
            },
            _ => self.rank_of() < other.rank_of(),
        }
    }
}

fn float_before(a: u64, b: u64) -> (r: bool)
    ensures
        r == (float_position(a) < float_position(b)),
{
    let negative_a = a >= 0x8000_0000_0000_0000;
    let negative_b = b >= 0x8000_0000_0000_0000;
    if negative_a {
        if negative_b {
            b < a
        } else {
            true
        }
    } else {
        !negative_b && a < b
    }
}

/// Whether two lists of values mean the same.
pub fn values_same(a: &Vec<Value>, b: &Vec<Value>) -> (r: bool)
    ensures
        r == (models(a@) == models(b@)),
{
    if a.len() != b.len() {
        assert(models(a@).len() != models(b@).len());
        return false;
    }
    let mut i: usize = 0;
    while i < a.len()
        invariant
            i <= a.len(),
            a@.len() == b@.len(),
            forall|k: int| 0 <= k < i ==> a@[k].model() == b@[k].model(),
        decreases a.len() - i,
    {
        if !a[i].same(&b[i]) {
            assert(models(a@)[i as int] != models(b@)[i as int]);
            return false;
        }
        i += 1;
    }
    assert(models(a@) =~= models(b@));
    true
}

/// Whether `a` sorts before `b`, item by item.
pub fn values_before(a: &Vec<Value>, b: &Vec<Value>) -> (r: bool)
    ensures
        r == list_before(models(a@), models(b@)),
{
    let ghost x = models(a@);
    let ghost y = models(b@);
    assert(x.skip(0) =~= x);
    assert(y.skip(0) =~= y);
    let mut i: usize = 0;
    while i < a.len() && i < b.len()
        invariant
            i <= a.len(),
            i <= b.len(),
            x == models(a@),
            y == models(b@),
            list_before(x, y) == list_before(x.skip(i as int), y.skip(i as int)),
        decreases a.len() - i,
    {
        if !a[i].same(&b[i]) {
            return a[i].before(&b[i]);
        }
        assert(x.skip(i as int).drop_first() =~= x.skip(i + 1));
        assert(y.skip(i as int).drop_first() =~= y.skip(i + 1));
        i += 1;
    }
    i < b.len()
}

/// Values of one kind sort by what they are: false before true, numbers by size,
/// floating-point numbers from the most negative up, texts and bytes as in a dictionary.
/// Values of different kinds sort by kind: null first, then truths, signed numbers,
/// unsigned ones, floating-point ones, texts, bytes, and lists last.
pub proof fn values_sort_by_what_they_are(v: ValueModel, w: ValueModel)
    ensures
        match (v, w) {
            (ValueModel::Bool(x), ValueModel::Bool(y)) => value_before(v, w) <==> x == false && y
                == true,
            (ValueModel::I64(x), ValueModel::I64(y)) => value_before(v, w) <==> x < y,
            (ValueModel::U64(x), ValueModel::U64(y)) => value_before(v, w) <==> x < y,
            (ValueModel::F64(x), ValueModel::F64(y)) => value_before(v, w) <==> {
                let minus = 0x8000_0000_0000_0000u64;
                ||| x < y < minus
                ||| y < minus <= x
                ||| minus <= y < x
            },
            (ValueModel::Str(x), ValueModel::Str(y)) => value_before(v, w) <==> goes_before(
                vstd::utf8::encode_utf8(x),
                vstd::utf8::encode_utf8(y),
            ),
            (ValueModel::Bytes(x), ValueModel::Bytes(y)) => value_before(v, w) <==> goes_before(x, y),
            _ => true,
        },
        v is Null && !(w is Null) ==> value_before(v, w),
        v is Bool && w is I64 ==> value_before(v, w),
        v is I64 && w is U64 ==> value_before(v, w),
        v is U64 && w is F64 ==> value_before(v, w),
        v is F64 && w is Str ==> value_before(v, w),
        v is Str && w is Bytes ==> value_before(v, w),
        !(v is List) && w is List ==> value_before(v, w),
{
    match (v, w) {
        (ValueModel::Str(x), ValueModel::Str(y)) => {
            texts_sort_as_in_a_dictionary(Seq::empty(), Seq::empty(), x, y);
        },
        (ValueModel::Bytes(x), ValueModel::Bytes(y)) => {
            texts_sort_as_in_a_dictionary(x, y, Seq::empty(), Seq::empty());
        },
        _ => {},
    }
}

/// Whether one list goes before another: where they first differ its item sorts before
/// the other's, or it ends there and the other does not.
pub open spec fn list_parts_at(a: Seq<ValueModel>, b: Seq<ValueModel>, k: int) -> bool {
    &&& 0 <= k <= a.len()
    &&& k < b.len()
    &&& forall|i: int| 0 <= i < k ==> a[i] == b[i]
    &&& k == a.len() || value_before(a[k], b[k])
}

/// Lists sort by the first item they differ in, a list before one that goes on.
pub proof fn lists_sort_item_by_item(a: Seq<ValueModel>, b: Seq<ValueModel>)
    ensures
        list_before(a, b) <==> exists|k: int| #[trigger] list_parts_at(a, b, k),
        value_before(ValueModel::List(a), ValueModel::List(b)) <==> list_before(a, b),
    decreases a.len(),
{
    if b.len() > 0 {
        if a.len() == 0 {
            assert(list_parts_at(a, b, 0));
        } else if a[0] != b[0] {
            if value_before(a[0], b[0]) {
                assert(list_parts_at(a, b, 0));
            } else if exists|k: int| #[trigger] list_parts_at(a, b, k) {
                let k = choose|k: int| #[trigger] list_parts_at(a, b, k);
                assert(k > 0 ==> a[0] == b[0]);
            }
        } else {
            let (x, y) = (a.drop_first(), b.drop_first());
            lists_sort_item_by_item(x, y);
            lemma_value_before_total(a[0], a[0]);
            if exists|k: int| #[trigger] list_parts_at(x, y, k) {
                let k = choose|k: int| #[trigger] list_parts_at(x, y, k);
                assert forall|i: int| 0 <= i < k + 1 implies a[i] == b[i] by {
                    if i > 0 {
                        assert(x[i - 1] == y[i - 1]);
                    }
                }
                assert(list_parts_at(a, b, k + 1));
            }
            if exists|k: int| #[trigger] list_parts_at(a, b, k) {
                let k = choose|k: int| #[trigger] list_parts_at(a, b, k);
                assert(k > 0);
                assert forall|i: int| 0 <= i < k - 1 implies x[i] == y[i] by {
                    assert(a[i + 1] == b[i + 1]);
                }
                assert(list_parts_at(x, y, k - 1));
            }
        }
    }
}

} // verus!
