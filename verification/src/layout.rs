//! Records of a constant size.
//!
//! Every field has a slot at a constant place: a byte that says whether the
//! field is there, then as many bytes as its type has. Text and bytes carry
//! their length inside the slot and are padded with zeros.

use vstd::bytes::*;
use vstd::prelude::*;
use vstd::slice::*;
use vstd::utf8::*;
use crate::record::{field_of, Record, RecordModel};
use crate::schema::{
    field_models, holds, layout_bytes, prefix_bytes, slot_width, FieldDef, FieldModel, FieldType,
};
use crate::value::{Value, ValueModel};
use crate::wire::{put_bytes, utf8_string};

verus! {

/// So many zeros.
pub open spec fn zeros(n: nat) -> Seq<u8> {
    Seq::new(n, |i: int| 0u8)
}

/// A content length in one, two or four bytes.
pub open spec fn length_bytes(prefix: int, n: nat) -> Seq<u8> {
    if prefix == 1 {
        seq![n as u8]
    } else if prefix == 2 {
        spec_u16_to_le_bytes(n as u16)
    } else {
        spec_u32_to_le_bytes(n as u32)
    }
}

/// The content length that leading bytes give.
pub open spec fn length_at(prefix: int, s: Seq<u8>) -> nat {
    if prefix == 1 {
        s[0] as nat
    } else if prefix == 2 {
        spec_u16_from_le_bytes(s.take(2)) as nat
    } else {
        spec_u32_from_le_bytes(s.take(4)) as nat
    }
}

/// Content in a slot of `width` bytes.
pub open spec fn padded(width: u32, content: Seq<u8>) -> Seq<u8> {
    let p = prefix_bytes(width as int);
    length_bytes(p, content.len()) + content + zeros((width - p - content.len()) as nat)
}

/// What a value is in a slot of a type that holds it: an unsigned number in a
/// signed slot becomes a signed one.
pub open spec fn slotted(ty: FieldType, v: ValueModel) -> ValueModel {
    match v {
        ValueModel::U64(n) => if ty == FieldType::I64 {
            ValueModel::I64(n as i64)
        } else {
            v
        },
        _ => v,
    }
}

/// What a field of a stored record reads as. Null is no value.
pub open spec fn stored(ty: FieldType, v: Option<ValueModel>) -> Option<ValueModel> {
    match v {
        None => None,
        Some(ValueModel::Null) => None,
        Some(v) => Some(slotted(ty, v)),
    }
}

/// The bytes of a present value, the presence byte left out.
pub open spec fn content_bytes(ty: FieldType, v: ValueModel) -> Seq<u8> {
    match v {
        ValueModel::Bool(b) => seq![if b { 1u8 } else { 0u8 }],
        ValueModel::I64(n) => spec_u64_to_le_bytes(n as u64),
        ValueModel::U64(n) => spec_u64_to_le_bytes(n),
        ValueModel::F64(n) => spec_u64_to_le_bytes(n),
        ValueModel::Str(s) => padded((slot_width(ty)->Some_0) as u32, encode_utf8(s)),
        ValueModel::Bytes(b) => padded((slot_width(ty)->Some_0) as u32, b),
        _ => Seq::empty(),
    }
}

/// The bytes of a field.
pub open spec fn slot_bytes(ty: FieldType, v: Option<ValueModel>) -> Seq<u8> {
    match v {
        Some(v) => if v is Null {
            zeros((1 + slot_width(ty)->Some_0) as nat)
        } else {
            seq![1u8] + content_bytes(ty, v)
        },
        None => zeros((1 + slot_width(ty)->Some_0) as nat),
    }
}

/// Content out of a slot, where its length stays inside.
pub open spec fn unpadded(width: u32, s: Seq<u8>) -> Option<Seq<u8>> {
    let p = prefix_bytes(width as int);
    if width < p || p + length_at(p, s) > width {
        None
    } else {
        Some(s.subrange(p, p + length_at(p, s)))
    }
}

/// What a slot holds: `Some(None)` where the field is absent, `None` where the
/// bytes are of no value.
#[verifier::opaque]
pub open spec fn read_slot(ty: FieldType, s: Seq<u8>) -> Option<Option<ValueModel>> {
    let body = s.drop_first();
    if s[0] == 0 {
        Some(None)
    } else if s[0] != 1 {
        None
    } else {
        match ty {
            FieldType::Bool => if body[0] == 0 {
                Some(Some(ValueModel::Bool(false)))
            } else if body[0] == 1 {
                Some(Some(ValueModel::Bool(true)))
            } else {
                None
            },
            FieldType::I64 => Some(Some(ValueModel::I64(spec_u64_from_le_bytes(body) as i64))),
            FieldType::U64 => Some(Some(ValueModel::U64(spec_u64_from_le_bytes(body)))),
            FieldType::F64 => Some(Some(ValueModel::F64(spec_u64_from_le_bytes(body)))),
            FieldType::Char(w) => match unpadded(w, body) {
                Some(c) => if valid_utf8(c) {
                    Some(Some(ValueModel::Str(decode_utf8(c))))
                } else {
                    None
                },
                None => None,
            },
            FieldType::FixedBytes(w) => match unpadded(w, body) {
                Some(c) => Some(Some(ValueModel::Bytes(c))),
                None => None,
            },
            _ => None,
        }
    }
}

proof fn lemma_padded(width: u32, content: Seq<u8>)
    requires
        content.len() + prefix_bytes(width as int) <= width,
    ensures
        padded(width, content).len() == width,
        unpadded(width, padded(width, content)) == Some(content),
{
    lemma_auto_spec_u16_to_from_le_bytes();
    lemma_auto_spec_u32_to_from_le_bytes();
    let p = prefix_bytes(width as int);
    let s = padded(width, content);
    let n = content.len();
    let head = length_bytes(p, n);
    assert(head.len() == p);
    assert(s.take(p) =~= head);
    assert(length_at(p, s) == n) by {
        if p == 1 {
            assert(s[0] == head[0]);
        }
    }
    assert(s.subrange(p, p + n) =~= content);
}

/// A value that its type holds reads back from its slot.
pub proof fn a_slot_reads_back(ty: FieldType, v: Option<ValueModel>)
    requires
        slot_width(ty) is Some,
        v matches Some(x) ==> holds(ty, x),
    ensures
        slot_bytes(ty, v).len() == 1 + slot_width(ty)->Some_0,
        read_slot(ty, slot_bytes(ty, v)) == Some(stored(ty, v)),
{
    reveal(read_slot);
    lemma_auto_spec_u64_to_from_le_bytes();
    let s = slot_bytes(ty, v);
    match v {
        Some(x) => {
            if !(x is Null) {
                assert(s.drop_first() =~= content_bytes(ty, x));
                match x {
                    ValueModel::I64(n) => {
                        assert((n as u64) as i64 == n) by (bit_vector);
                    },
                    ValueModel::Str(t) => {
                        let w = slot_width(ty)->Some_0;
                        lemma_padded(w, encode_utf8(t));
                        encode_utf8_decode_utf8(t);
                        encode_utf8_valid_utf8(t);
                    },
                    ValueModel::Bytes(b) => {
                        lemma_padded(slot_width(ty)->Some_0, b);
                    },
                    _ => {},
                }
            }
        },
        None => {},
    }
}

fn put_zeros(n: u64, out: &mut Vec<u8>)
    ensures
        final(out)@ == old(out)@ + zeros(n as nat),
{
    let mut i: u64 = 0;
    while i < n
        invariant
            i <= n,
            out@ =~= old(out)@ + zeros(i as nat),
        decreases n - i,
    {
        out.push(0);
        i += 1;
    }
}

fn put_padded(width: u32, content: &[u8], out: &mut Vec<u8>)
    requires
        content@.len() + prefix_bytes(width as int) <= width,
    ensures
        final(out)@ == old(out)@ + padded(width, content@),
{
    let p: u32 = FieldType::length_prefix_bytes(width);
    let n: u32 = content.len() as u32;
    if p == 1 {
        out.push(n as u8);
    } else if p == 2 {
        put_bytes(u16_to_le_bytes(n as u16).as_slice(), out);
    } else {
        put_bytes(u32_to_le_bytes(n).as_slice(), out);
    }
    assert(out@ =~= old(out)@ + length_bytes(p as int, content@.len()));
    put_bytes(content, out);
    put_zeros((width - p - n) as u64, out);
    assert(out@ =~= old(out)@ + padded(width, content@));
}

/// Append the bytes of a field.
pub fn put_slot(ty: FieldType, width: u32, v: Option<&Value>, out: &mut Vec<u8>)
    requires
        slot_width(ty) == Some(width),
        v matches Some(x) ==> holds(ty, x.model()),
    ensures
        final(out)@ == old(out)@ + slot_bytes(
            ty,
            match v {
                Some(x) => Some(x.model()),
                None => None,
            },
        ),
{
    match v {
        None => {
            put_zeros(1 + width as u64, out);
        },
        Some(v) => {
            let ghost before = out@;
            let ghost want = slot_bytes(ty, Some(v.model()));
            match v {
                Value::Null => {
                    put_zeros(1 + width as u64, out);
                },
                Value::Bool(b) => {
                    out.push(1);
                    out.push(if *b { 1u8 } else { 0u8 });
                },
                Value::I64(n) => {
                    out.push(1);
                    put_bytes(u64_to_le_bytes(*n as u64).as_slice(), out);
                },
                Value::U64(n) => {
                    out.push(1);
                    put_bytes(u64_to_le_bytes(*n).as_slice(), out);
                },
                Value::F64(n) => {
                    out.push(1);
                    put_bytes(u64_to_le_bytes(*n).as_slice(), out);
                },
                Value::Str(s) => {
                    out.push(1);
                    put_padded(width, s.as_str().as_bytes(), out);
                },
                Value::Bytes(b) => {
                    out.push(1);
                    put_padded(width, b.as_slice(), out);
                },
                Value::List(_) => {},
            }
            assert(out@ =~= before + want);
        },
    }
}

fn get_unpadded(width: u32, s: &[u8]) -> (r: Option<&[u8]>)
    requires
        s@.len() == width,
    ensures
        match unpadded(width, s@) {
            Some(c) => r matches Some(x) && x@ == c,
            None => r is None,
        },
{
    let p: u32 = FieldType::length_prefix_bytes(width);
    if width < p {
        return None;
    }
    let n: u32 = if p == 1 {
        s[0] as u32
    } else if p == 2 {
        assert(s@.subrange(0, 2) =~= s@.take(2));
        u16_from_le_bytes(slice_subrange(s, 0, 2)) as u32
    } else {
        assert(s@.subrange(0, 4) =~= s@.take(4));
        u32_from_le_bytes(slice_subrange(s, 0, 4))
    };
    if n > width - p {
        return None;
    }
    Some(slice_subrange(s, p as usize, p as usize + n as usize))
}

/// What a slot holds.
pub fn get_slot(ty: FieldType, s: &[u8]) -> (r: Option<Option<Value>>)
    requires
        slot_width(ty) matches Some(w) && s@.len() == 1 + w,
    ensures
        match read_slot(ty, s@) {
            Some(Some(m)) => r matches Some(Some(v)) && v.model() == m,
            Some(None) => r == Some(None::<Value>),
            None => r is None,
        },
{
    reveal(read_slot);
    if s[0] == 0 {
        return Some(None);
    }
    if s[0] != 1 {
        return None;
    }
    let body = slice_subrange(s, 1, s.len());
    assert(body@ =~= s@.drop_first());
    match ty {
        FieldType::Bool => {
            if body[0] == 0 {
                Some(Some(Value::Bool(false)))
            } else if body[0] == 1 {
                Some(Some(Value::Bool(true)))
            } else {
                None
            }
        },
        FieldType::I64 => Some(Some(Value::I64(u64_from_le_bytes(body) as i64))),
        FieldType::U64 => Some(Some(Value::U64(u64_from_le_bytes(body)))),
        FieldType::F64 => Some(Some(Value::F64(u64_from_le_bytes(body)))),
        FieldType::Char(w) => match get_unpadded(w, body) {
            Some(c) => match utf8_string(c) {
                Some(t) => Some(Some(Value::Str(t))),
                None => None,
            },
            None => None,
        },
        FieldType::FixedBytes(w) => match get_unpadded(w, body) {
            Some(c) => {
                let mut b: Vec<u8> = Vec::new();
                put_bytes(c, &mut b);
                assert(b@ =~= c@);
                Some(Some(Value::Bytes(b)))
            },
            None => None,
        },
        _ => None,
    }
}

// -- whole records ------------------------------------------------------------

/// The bytes of a record: its fields' slots in turn.
pub open spec fn record_bytes(fields: Seq<FieldModel>, r: RecordModel) -> Seq<u8>
    decreases fields.len(),
{
    if fields.len() == 0 {
        Seq::empty()
    } else {
        record_bytes(fields.drop_last(), r) + slot_bytes(
            fields.last().ty,
            field_of(r, fields.last().name),
        )
    }
}

/// Whether every field has a slot.
pub open spec fn all_slots(fields: Seq<FieldModel>) -> bool {
    forall|i: int| 0 <= i < fields.len() ==> slot_width((#[trigger] fields[i]).ty) is Some
}

/// Whether every field can hold what a record has for it.
pub open spec fn all_hold(fields: Seq<FieldModel>, r: RecordModel) -> bool {
    forall|i: int|
        0 <= i < fields.len() ==> (field_of(r, (#[trigger] fields[i]).name) matches Some(v)
            ==> holds(fields[i].ty, v))
}

/// Where the slot of a field begins.
#[verifier::opaque]
pub open spec fn slot_start(fields: Seq<FieldModel>, i: int) -> int {
    layout_bytes(fields.take(i)) as int
}

/// The bytes of a field's slot in a record.
pub open spec fn slot_in(fields: Seq<FieldModel>, s: Seq<u8>, i: int) -> Seq<u8> {
    s.subrange(slot_start(fields, i), slot_start(fields, i + 1))
}

/// Where slots begin and end.
pub proof fn lemma_slot_start(fields: Seq<FieldModel>, i: int)
    requires
        all_slots(fields),
        0 <= i < fields.len(),
    ensures
        0 <= slot_start(fields, i),
        slot_start(fields, i + 1) == slot_start(fields, i) + 1 + slot_width(fields[i].ty)->Some_0,
        slot_start(fields, i + 1) <= layout_bytes(fields),
    decreases fields.len() - i,
{
    reveal(slot_start);
    assert(fields.take(i + 1).drop_last() =~= fields.take(i));
    if i + 1 < fields.len() {
        lemma_slot_start(fields, i + 1);
    } else {
        assert(fields.take(i + 1) =~= fields);
    }
}

/// Each field's slot stands at its place in a record's bytes.
pub proof fn lemma_record_bytes(fields: Seq<FieldModel>, r: RecordModel)
    requires
        all_slots(fields),
        all_hold(fields, r),
    ensures
        record_bytes(fields, r).len() == layout_bytes(fields),
        forall|i: int|
            0 <= i < fields.len() ==> #[trigger] slot_in(fields, record_bytes(fields, r), i)
                == slot_bytes(fields[i].ty, field_of(r, fields[i].name)),
    decreases fields.len(),
{
    reveal(slot_start);
    if fields.len() > 0 {
        let rest = fields.drop_last();
        let n = rest.len() as int;
        let last = fields.last();
        assert(all_slots(rest)) by {
            assert forall|i: int| 0 <= i < rest.len() implies slot_width(
                (#[trigger] rest[i]).ty,
            ) is Some by {
                assert(rest[i] == fields[i]);
            }
        }
        assert(all_hold(rest, r)) by {
            assert forall|i: int| 0 <= i < rest.len() implies (field_of(
                r,
                (#[trigger] rest[i]).name,
            ) matches Some(v) ==> holds(rest[i].ty, v)) by {
                assert(rest[i] == fields[i]);
            }
        }
        lemma_record_bytes(rest, r);
        assert(fields[n] == last);
        a_slot_reads_back(last.ty, field_of(r, last.name));
        let whole = record_bytes(fields, r);
        assert forall|i: int| 0 <= i < fields.len() implies #[trigger] slot_in(fields, whole, i)
            == slot_bytes(fields[i].ty, field_of(r, fields[i].name)) by {
            lemma_slot_start(fields, i);
            if i < n {
                lemma_slot_start(rest, i);
                assert(rest.take(i) =~= fields.take(i));
                assert(rest.take(i + 1) =~= fields.take(i + 1));
                assert(slot_in(fields, whole, i) =~= slot_in(rest, record_bytes(rest, r), i));
            } else {
                assert(fields.take(n) =~= rest);
                assert(fields.take(n + 1) =~= fields);
                assert(slot_in(fields, whole, i) =~= slot_bytes(
                    last.ty,
                    field_of(r, last.name),
                ));
            }
        }
    }
}

/// Where a field is first declared.
pub open spec fn declared_at(fields: Seq<FieldModel>, name: Seq<char>) -> Option<int>
    decreases fields.len(),
{
    if fields.len() == 0 {
        None
    } else {
        match declared_at(fields.drop_last(), name) {
            Some(i) => Some(i),
            None => if fields.last().name == name {
                Some(fields.len() - 1)
            } else {
                None
            },
        }
    }
}

pub proof fn lemma_declared_at(fields: Seq<FieldModel>, name: Seq<char>)
    ensures
        match declared_at(fields, name) {
            Some(i) => 0 <= i < fields.len() && fields[i].name == name && forall|k: int|
                0 <= k < i ==> (#[trigger] fields[k]).name != name,
            None => forall|k: int| 0 <= k < fields.len() ==> (#[trigger] fields[k]).name != name,
        },
    decreases fields.len(),
{
    if fields.len() > 0 {
        let rest = fields.drop_last();
        lemma_declared_at(rest, name);
        assert forall|k: int| 0 <= k < rest.len() implies (#[trigger] fields[k]) == rest[k] by {}
    }
}

/// What a record's bytes hold for a field.
pub open spec fn field_read(fields: Seq<FieldModel>, s: Seq<u8>, name: Seq<char>) -> Option<
    Option<ValueModel>,
> {
    match declared_at(fields, name) {
        Some(i) => read_slot(fields[i].ty, slot_in(fields, s, i)),
        None => Some(None),
    }
}

/// Whether every slot decodes.
pub open spec fn readable(fields: Seq<FieldModel>, s: Seq<u8>) -> bool {
    forall|i: int|
        0 <= i < fields.len() ==> read_slot(
            (#[trigger] fields[i]).ty,
            slot_in(fields, s, i),
        ) is Some
}

/// A record that its fields can hold reads back from its bytes: every declared
/// field as it is stored, and nothing else.
pub proof fn a_record_reads_back(fields: Seq<FieldModel>, r: RecordModel, name: Seq<char>)
    requires
        all_slots(fields),
        all_hold(fields, r),
    ensures
        readable(fields, record_bytes(fields, r)),
        field_read(fields, record_bytes(fields, r), name) == Some(
            match declared_at(fields, name) {
                Some(i) => stored(fields[i].ty, field_of(r, name)),
                None => None,
            },
        ),
{
    let s = record_bytes(fields, r);
    lemma_record_bytes(fields, r);
    assert forall|i: int| 0 <= i < fields.len() implies read_slot(
        (#[trigger] fields[i]).ty,
        slot_in(fields, s, i),
    ) == Some(stored(fields[i].ty, field_of(r, fields[i].name))) by {
        a_slot_reads_back(fields[i].ty, field_of(r, fields[i].name));
    }
    lemma_declared_at(fields, name);
}

fn width_of(ty: FieldType) -> (w: u32)
    requires
        slot_width(ty) is Some,
    ensures
        slot_width(ty) == Some(w),
{
    match ty {
        FieldType::Bool => 1,
        FieldType::Char(w) => w,
        FieldType::FixedBytes(w) => w,
        _ => 8,
    }
}

/// The bytes of a record.
pub fn encode_record(fields: &Vec<FieldDef>, rec: &Record) -> (out: Vec<u8>)
    requires
        all_slots(field_models(fields@)),
        all_hold(field_models(fields@), rec.model()),
    ensures
        out@ == record_bytes(field_models(fields@), rec.model()),
{
    let ghost all = field_models(fields@);
    let ghost r = rec.model();
    let mut out: Vec<u8> = Vec::new();
    let mut i: usize = 0;
    assert(all.take(0) =~= Seq::empty());
    while i < fields.len()
        invariant
            i <= fields@.len(),
            all == field_models(fields@),
            all.len() == fields@.len(),
            all_slots(all),
            all_hold(all, rec.model()),
            out@ == record_bytes(all.take(i as int), rec.model()),
        decreases fields.len() - i,
    {
        let f = &fields[i];
        assert(all[i as int] == f@);
        put_slot(f.ty, width_of(f.ty), rec.get(f.name.as_str()), &mut out);
        assert(all.take(i + 1).drop_last() =~= all.take(i as int));
        i += 1;
    }
    assert(all.take(i as int) =~= all);
    out
}

/// What a record's bytes hold for a field, without reading the other fields.
pub fn decode_field(fields: &Vec<FieldDef>, s: &[u8], name: &str) -> (r: Option<Option<Value>>)
    requires
        all_slots(field_models(fields@)),
        s@.len() == layout_bytes(field_models(fields@)),
    ensures
        match field_read(field_models(fields@), s@, name@) {
            Some(Some(m)) => r matches Some(Some(v)) && v.model() == m,
            Some(None) => r == Some(None::<Value>),
            None => r is None,
        },
{
    let ghost all = field_models(fields@);
    let total: usize = s.len();
    let mut at: usize = 0;
    let mut i: usize = 0;
    assert(slot_start(all, 0) == 0) by {
        reveal(slot_start);
        assert(all.take(0) =~= Seq::empty());
    }
    proof {
        lemma_declared_at(all, name@);
    }
    while i < fields.len()
        invariant
            i <= fields@.len(),
            all == field_models(fields@),
            all.len() == fields@.len(),
            all_slots(all),
            total == s@.len(),
            s@.len() == layout_bytes(all),
            at == slot_start(all, i as int),
            forall|k: int| 0 <= k < i ==> (#[trigger] all[k]).name != name@,
            match declared_at(all, name@) {
                Some(k) => i <= k < all.len() && all[k].name == name@ && forall|j: int|
                    0 <= j < k ==> (#[trigger] all[j]).name != name@,
                None => forall|k: int| 0 <= k < all.len() ==> (#[trigger] all[k]).name != name@,
            },
        decreases fields.len() - i,
    {
        let f = &fields[i];
        assert(all[i as int] == f@);
        proof {
            lemma_slot_start(all, i as int);
        }
        let end: usize = at + 1 + width_of(f.ty) as usize;
        if crate::text::str_eq(f.name.as_str(), name) {
            return get_slot(f.ty, slice_subrange(s, at, end));
        }
        at = end;
        i += 1;
    }
    Some(None)
}

/// Whether a record has what the first `i` slots hold.
#[verifier::opaque]
spec fn read_upto(fields: Seq<FieldModel>, s: Seq<u8>, i: int, rec: Record) -> bool {
    forall|name: Seq<char>| #[trigger]
        rec.field(name) == match declared_at(fields.take(i), name) {
            Some(k) => read_slot(fields[k].ty, slot_in(fields, s, k))->Some_0,
            None => None,
        }
}

proof fn lemma_read_next(
    fields: Seq<FieldModel>,
    s: Seq<u8>,
    i: int,
    before: Record,
    after: Record,
)
    requires
        0 <= i < fields.len(),
        read_upto(fields, s, i, before),
        forall|name: Seq<char>|
            name != fields[i].name ==> #[trigger] after.field(name) == before.field(name),
        after.field(fields[i].name) == if declared_at(fields.take(i), fields[i].name) is Some {
            before.field(fields[i].name)
        } else {
            read_slot(fields[i].ty, slot_in(fields, s, i))->Some_0
        },
    ensures
        read_upto(fields, s, i + 1, after),
{
    reveal(read_upto);
    let next = fields.take(i + 1);
    assert(next.drop_last() =~= fields.take(i));
    assert(next.last() == fields[i]);
}

/// Read one slot more into a record. Returns where the next one begins, or
/// nothing where the slot does not decode.
fn read_into(fields: &Vec<FieldDef>, s: &[u8], at: usize, i: usize, rec: &mut Record) -> (end:
    Option<usize>)
    requires
        all_slots(field_models(fields@)),
        s@.len() == layout_bytes(field_models(fields@)),
        i < fields@.len(),
        at == slot_start(field_models(fields@), i as int),
        read_upto(field_models(fields@), s@, i as int, *old(rec)),
    ensures
        match end {
            Some(e) => {
                &&& e == slot_start(field_models(fields@), i + 1)
                &&& read_slot(
                    field_models(fields@)[i as int].ty,
                    slot_in(field_models(fields@), s@, i as int),
                ) is Some
                &&& read_upto(field_models(fields@), s@, i + 1, *final(rec))
            },
            None => read_slot(
                field_models(fields@)[i as int].ty,
                slot_in(field_models(fields@), s@, i as int),
            ) is None,
        },
{
    let ghost all = field_models(fields@);
    let ghost before = *rec;
    let total: usize = s.len();
    let f = &fields[i];
    assert(all[i as int] == f@);
    proof {
        lemma_slot_start(all, i as int);
    }
    let end: usize = at + 1 + width_of(f.ty) as usize;
    let seen = declares_before(fields, i, f.name.as_str());
    let slot = slice_subrange(s, at, end);
    assert(slot@ == slot_in(all, s@, i as int));
    match get_slot(f.ty, slot) {
        None => {
            return None;
        },
        Some(held) => {
            match held {
                Some(v) => {
                    if !seen {
                        rec.set(f.name.as_str(), v);
                    }
                },
                None => {
                    proof {
                        reveal(read_upto);
                        assert(before.field(f.name@) == rec.field(f.name@));
                    }
                },
            }
        },
    }
    proof {
        lemma_read_next(all, s@, i as int, before, *rec);
    }
    Some(end)
}

/// The record that bytes hold. Nothing where a slot does not decode.
pub fn decode_record(fields: &Vec<FieldDef>, s: &[u8]) -> (r: Option<Record>)
    requires
        all_slots(field_models(fields@)),
        s@.len() == layout_bytes(field_models(fields@)),
    ensures
        r is Some == readable(field_models(fields@), s@),
        r matches Some(rec) ==> forall|name: Seq<char>| #[trigger]
            field_of(rec.model(), name) == field_read(field_models(fields@), s@, name)->Some_0,
{
    let ghost all = field_models(fields@);
    let mut rec = Record::new();
    let total: usize = s.len();
    assert(read_upto(all, s@, 0, rec)) by {
        reveal(read_upto);
    }
    let mut at: usize = 0;
    let mut i: usize = 0;
    assert(all.take(0) =~= Seq::empty());
    assert(slot_start(all, 0) == 0) by {
        reveal(slot_start);
    }
    while i < fields.len()
        invariant
            i <= fields@.len(),
            all == field_models(fields@),
            all.len() == fields@.len(),
            all_slots(all),
            total == s@.len(),
            s@.len() == layout_bytes(all),
            at == slot_start(all, i as int),
            forall|k: int|
                0 <= k < i ==> read_slot((#[trigger] all[k]).ty, slot_in(all, s@, k)) is Some,
            read_upto(all, s@, i as int, rec),
        decreases fields.len() - i,
    {
        match read_into(fields, s, at, i, &mut rec) {
            None => {
                return None;
            },
            Some(end) => {
                at = end;
            },
        }
        i += 1;
    }
    assert(all.take(i as int) =~= all);
    proof {
        assert forall|name: Seq<char>| #[trigger] field_of(rec.model(), name) == field_read(
            all,
            s@,
            name,
        )->Some_0 by {
            assert(rec.field(name) == field_of(rec.model(), name));
            lemma_declared_at(all, name);
            reveal(read_upto);
        }
    }
    Some(rec)
}

fn declares_before(fields: &Vec<FieldDef>, n: usize, name: &str) -> (r: bool)
    requires
        n <= fields@.len(),
    ensures
        r == (declared_at(field_models(fields@).take(n as int), name@) is Some),
{
    let ghost all = field_models(fields@).take(n as int);
    proof {
        lemma_declared_at(all, name@);
    }
    let mut i: usize = 0;
    while i < n
        invariant
            i <= n <= fields@.len(),
            all == field_models(fields@).take(n as int),
            declared_at(all, name@) is None ==> forall|k: int|
                0 <= k < all.len() ==> (#[trigger] all[k]).name != name@,
            declared_at(all, name@) matches Some(k) ==> i <= k < n && all[k].name == name@,
        decreases n - i,
    {
        assert(all[i as int] == fields@[i as int]@);
        if crate::text::str_eq(fields[i].name.as_str(), name) {
            return true;
        }
        i += 1;
    }
    false
}

/// A value is stored as it is. Null is stored as nothing, and an unsigned number in a
/// signed slot as the signed number that it is, where it is one.
pub proof fn a_value_is_stored_as_it_is(ty: FieldType, v: ValueModel)
    requires
        holds(ty, v),
    ensures
        v is Null <==> stored(ty, Some(v)) is None,
        match stored(ty, Some(v)) {
            None => true,
            Some(w) => w == v || match (v, w) {
                (ValueModel::U64(n), ValueModel::I64(m)) => ty is I64 && (n <= i64::MAX ==> m == n),
                _ => false,
            },
        },
        stored(ty, None) is None,
{
}

} // verus!
