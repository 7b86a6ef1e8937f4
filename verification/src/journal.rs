//! The coordinator's journal: writes that were promised to several shards at
//! once, kept until every shard has applied them.
//!
//! The file is a header and then writes back to back, with no framing beyond
//! their own. Whatever is found in it is replayed: a put stores the record
//! whether or not it was there, and a delete of nothing is done.

use vstd::bytes::*;
use vstd::prelude::*;
use vstd::slice::*;
use vstd::utf8::*;
use crate::error::{Error, ErrorModel};
use crate::record::{fields_determine_a_record, field_of, named_in_order, Record, RecordModel};
use crate::text::{dec, dec_text};
use crate::unique::{
    lemma_string_round_trip, put_str, read_u32, string_at, string_bytes, take, u32_at,
};
use crate::value::ValueModel;
use crate::wire::{
    bad_text, bad_text_said, decode_value, encode_value, lemma_value_canonical,
    lemma_value_round_trip, nested_within, put_bytes, utf8_text, value_at, value_bytes, value_sized,
    BadText, MAX_NESTING,
};

verus! {

/// One write of a transaction that spans shards: a record to be stored, or none
/// where the id is to be deleted.
#[derive(Debug, PartialEq, Eq)]
pub struct CrossShardWrite {
    pub collection: String,
    pub id: u64,
    pub record: Option<Record>,
}

/// What a [`CrossShardWrite`] says. A record is its fields in the order they are
/// written.
pub struct WriteModel {
    pub collection: Seq<char>,
    pub id: u64,
    pub record: Option<RecordModel>,
}

impl View for CrossShardWrite {
    type V = WriteModel;

    open spec fn view(&self) -> WriteModel {
        WriteModel {
            collection: self.collection@,
            id: self.id,
            record: match self.record {
                Some(r) => Some(r.model()),
                None => None,
            },
        }
    }
}

pub open spec fn write_models(s: Seq<CrossShardWrite>) -> Seq<WriteModel> {
    s.map_values(|w: CrossShardWrite| w@)
}

/// Fields as bytes: a name and a value each.
pub open spec fn fields_bytes(r: RecordModel) -> Seq<u8>
    decreases r.len(),
{
    if r.len() == 0 {
        Seq::empty()
    } else {
        string_bytes(r[0].0) + (value_bytes(r[0].1) + fields_bytes(r.drop_first()))
    }
}

/// What follows the id: a kind, and for a put the fields.
pub open spec fn record_part(r: Option<RecordModel>) -> Seq<u8> {
    match r {
        None => seq![0u8],
        Some(r) => seq![1u8] + (spec_u32_to_le_bytes(r.len() as u32) + fields_bytes(r)),
    }
}

/// A write as bytes.
pub open spec fn write_bytes(w: WriteModel) -> Seq<u8> {
    string_bytes(w.collection) + (spec_u64_to_le_bytes(w.id) + record_part(w.record))
}

/// Whether every length of a write fits its four bytes.
pub open spec fn writable(w: WriteModel) -> bool {
    &&& encode_utf8(w.collection).len() <= u32::MAX
    &&& w.record matches Some(r) ==> r.len() <= u32::MAX && names_fit(r)
}

pub open spec fn names_fit(r: RecordModel) -> bool {
    forall|i: int| 0 <= i < r.len() ==> encode_utf8((#[trigger] r[i]).0).len() <= u32::MAX
}

/// Whether every length of a write fits its four bytes and no value is nested
/// past the limit.
pub open spec fn journalable(w: WriteModel) -> bool {
    &&& encode_utf8(w.collection).len() <= u32::MAX
    &&& w.record matches Some(r) ==> r.len() <= u32::MAX && fields_fit(r)
}

pub open spec fn fields_fit(r: RecordModel) -> bool {
    forall|i: int|
        0 <= i < r.len() ==> encode_utf8((#[trigger] r[i]).0).len() <= u32::MAX && value_sized(
            r[i].1,
        ) && nested_within(r[i].1, MAX_NESTING as nat)
}

/// What is wrong with bytes that are no write.
#[derive(Clone, Copy, Debug, PartialEq, Eq, Structural)]
pub enum JournalFault {
    /// The bytes end before the write does.
    Cut,
    /// A name is not text.
    Name(BadText),
    /// A value does not decode.
    Value,
    Kind(u8),
}

/// The error a fault is reported as. Bytes that are not there could not be read; bytes
/// that are and mean nothing are corrupt.
pub open spec fn fault_error(f: JournalFault) -> ErrorModel {
    match f {
        JournalFault::Cut => ErrorModel::Io("failed to fill whole buffer"@),
        JournalFault::Name(b) => ErrorModel::Corruption(
            "coordinator journal name: "@ + bad_text_said(b),
        ),
        JournalFault::Value => ErrorModel::Corruption("coordinator journal value: does not decode"@),
        JournalFault::Kind(k) => ErrorModel::Corruption(
            "coordinator journal: unknown write kind "@ + dec_text(k as nat),
        ),
    }
}

/// Why no name starts `s`: there are too few bytes, or they are not text.
pub open spec fn name_fault(s: Seq<u8>) -> JournalFault {
    match u32_at(s) {
        None => JournalFault::Cut,
        Some(n) => if 4 + n > s.len() {
            JournalFault::Cut
        } else {
            JournalFault::Name(bad_text(s.subrange(4, 4 + n)))
        },
    }
}

/// The fields that start `s`, and how many bytes they take.
pub open spec fn fields_at(s: Seq<u8>, n: nat) -> Result<(RecordModel, nat), JournalFault>
    decreases n,
{
    if n == 0 {
        Ok((Seq::empty(), 0))
    } else {
        match string_at(s) {
            None => Err(name_fault(s)),
            Some((name, j)) => match value_at(s.skip(j as int), MAX_NESTING as nat) {
                None => Err(JournalFault::Value),
                Some((v, k)) => match fields_at(s.skip((j + k) as int), (n - 1) as nat) {
                    Err(f) => Err(f),
                    Ok((rest, used)) => Ok((seq![(name, v)] + rest, j + k + used)),
                },
            },
        }
    }
}

/// What follows the id, and how many bytes it takes.
pub open spec fn record_at(s: Seq<u8>) -> Result<(Option<RecordModel>, nat), JournalFault> {
    if s.len() < 1 {
        Err(JournalFault::Cut)
    } else if s[0] == 0 {
        Ok((None, 1))
    } else if s[0] != 1 {
        Err(JournalFault::Kind(s[0]))
    } else {
        match u32_at(s.skip(1)) {
            None => Err(JournalFault::Cut),
            Some(n) => match fields_at(s.skip(5), n as nat) {
                Err(f) => Err(f),
                Ok((r, used)) => Ok((Some(r), 5 + used)),
            },
        }
    }
}

/// The write that starts `s`, and how many bytes it takes.
pub open spec fn write_at(s: Seq<u8>) -> Result<(WriteModel, nat), JournalFault> {
    match string_at(s) {
        None => Err(name_fault(s)),
        Some((collection, j)) => {
            let t = s.skip(j as int);
            if t.len() < 8 {
                Err(JournalFault::Cut)
            } else {
                match record_at(t.skip(8)) {
                    Err(f) => Err(f),
                    Ok((record, k)) => Ok(
                        (
                            WriteModel {
                                collection,
                                id: spec_u64_from_le_bytes(t.take(8)),
                                record,
                            },
                            j + 8 + k,
                        ),
                    ),
                }
            }
        },
    }
}

proof fn lemma_fields_round_trip(r: RecordModel, rest: Seq<u8>)
    requires
        fields_fit(r),
    ensures
        fields_at(fields_bytes(r) + rest, r.len()) == Ok::<_, JournalFault>(
            (r, fields_bytes(r).len()),
        ),
    decreases r.len(),
{
    if r.len() > 0 {
        let others = r.drop_first();
        let tail = fields_bytes(others) + rest;
        let s = fields_bytes(r) + rest;
        let name = string_bytes(r[0].0);
        let value = value_bytes(r[0].1);
        assert(s =~= name + (value + tail));
        lemma_string_round_trip(r[0].0, value + tail);
        assert(s.skip(name.len() as int) =~= value + tail);
        lemma_value_round_trip(r[0].1, MAX_NESTING as nat, tail);
        assert(s.skip((name.len() + value.len()) as int) =~= tail);
        assert(fields_fit(others)) by {
            assert forall|i: int| 0 <= i < others.len() implies encode_utf8(
                (#[trigger] others[i]).0,
            ).len() <= u32::MAX && value_sized(others[i].1) && nested_within(
                others[i].1,
                MAX_NESTING as nat,
            ) by {
                assert(others[i] == r[i + 1]);
            }
        }
        lemma_fields_round_trip(others, rest);
        assert(seq![r[0]] + others =~= r);
    } else {
        assert(r =~= Seq::empty());
    }
}

/// A journalled write reads back, whatever follows it.
pub proof fn a_journalled_write_reads_back(w: WriteModel, rest: Seq<u8>)
    requires
        journalable(w),
    ensures
        write_at(write_bytes(w) + rest) == Ok::<_, JournalFault>((w, write_bytes(w).len())),
{
    lemma_auto_spec_u32_to_from_le_bytes();
    lemma_auto_spec_u64_to_from_le_bytes();
    let s = write_bytes(w) + rest;
    let c = string_bytes(w.collection);
    let part = record_part(w.record);
    let t = spec_u64_to_le_bytes(w.id) + (part + rest);
    assert(s =~= c + t);
    lemma_string_round_trip(w.collection, t);
    assert(s.skip(c.len() as int) =~= t);
    assert(t.take(8) =~= spec_u64_to_le_bytes(w.id));
    assert(t.skip(8) =~= part + rest);
    match w.record {
        None => {},
        Some(r) => {
            let p = part + rest;
            let n = spec_u32_to_le_bytes(r.len() as u32);
            assert(p.skip(1).take(4) =~= n);
            assert(p.skip(5) =~= fields_bytes(r) + rest);
            lemma_fields_round_trip(r, rest);
        },
    }
}

/// What is read of a text is its own bytes.
proof fn lemma_string_canonical(s: Seq<u8>)
    ensures
        string_at(s) matches Some((t, k)) ==> 0 < k <= s.len() && s.take(k as int) == string_bytes(t)
            && encode_utf8(t).len() <= u32::MAX,
{
    lemma_auto_spec_u32_to_from_le_bytes();
    if let Some((t, k)) = string_at(s) {
        let n = u32_at(s)->Some_0;
        let raw = s.subrange(4, 4 + n);
        decode_utf8_encode_utf8(raw);
        assert(spec_u32_to_le_bytes(n) == s.take(4));
        assert(s.take(k as int) =~= string_bytes(t));
    }
}

/// What is read stays read when more bytes follow.
proof fn lemma_string_extends(s: Seq<u8>, more: Seq<u8>)
    ensures
        string_at(s) matches Some((t, k)) ==> k <= s.len() && string_at(s + more) == Some((t, k)),
{
    lemma_string_canonical(s);
    if let Some((t, k)) = string_at(s) {
        assert(s + more =~= string_bytes(t) + (s.skip(k as int) + more));
        lemma_string_round_trip(t, s.skip(k as int) + more);
    }
}

proof fn lemma_value_extends(s: Seq<u8>, more: Seq<u8>)
    ensures
        value_at(s, MAX_NESTING as nat) matches Some((v, k)) ==> k <= s.len() && value_at(
            s + more,
            MAX_NESTING as nat,
        ) == Some((v, k)),
{
    lemma_value_canonical(s, MAX_NESTING as nat);
    if let Some((v, k)) = value_at(s, MAX_NESTING as nat) {
        assert(s + more =~= value_bytes(v) + (s.skip(k as int) + more));
        lemma_value_round_trip(v, MAX_NESTING as nat, s.skip(k as int) + more);
    }
}

proof fn lemma_fields_extend(s: Seq<u8>, n: nat, more: Seq<u8>)
    ensures
        fields_at(s, n) matches Ok((r, k)) ==> k <= s.len() && fields_at(s + more, n) == Ok::<
            _,
            JournalFault,
        >((r, k)),
    decreases n,
{
    if n > 0 && fields_at(s, n) is Ok {
        lemma_string_extends(s, more);
        let (name, j) = string_at(s)->Some_0;
        let t = s.skip(j as int);
        lemma_value_extends(t, more);
        let (v, k) = value_at(t, MAX_NESTING as nat)->Some_0;
        assert((s + more).skip(j as int) =~= t + more);
        let u = s.skip((j + k) as int);
        assert(u.len() + j + k == s.len());
        assert((s + more).skip((j + k) as int) =~= u + more);
        lemma_fields_extend(u, (n - 1) as nat, more);
    }
}

proof fn lemma_write_extends(s: Seq<u8>, more: Seq<u8>)
    ensures
        write_at(s) matches Ok((w, k)) ==> 0 < k <= s.len() && write_at(s + more) == Ok::<
            _,
            JournalFault,
        >((w, k)),
{
    if write_at(s) is Ok {
        lemma_string_extends(s, more);
        let (c, j) = string_at(s)->Some_0;
        let t = s.skip(j as int);
        assert((s + more).skip(j as int) =~= t + more);
        assert((t + more).take(8) =~= t.take(8));
        let u = t.skip(8);
        assert((t + more).skip(8) =~= u + more);
        if u[0] == 1 {
            let n = u32_at(u.skip(1))->Some_0;
            assert((u + more).skip(1).take(4) =~= u.skip(1).take(4));
            assert((u + more).skip(5) =~= u.skip(5) + more);
            lemma_fields_extend(u.skip(5), n as nat, more);
        }
    }
}

/// Part of a write is no write: what is cut off cannot be mistaken for another.
pub proof fn a_torn_write_is_not_read(w: WriteModel, n: int)
    requires
        journalable(w),
        0 <= n < write_bytes(w).len(),
    ensures
        write_at(write_bytes(w).take(n)) is Err,
{
    let whole = write_bytes(w);
    let head = whole.take(n);
    let tail = whole.skip(n);
    if write_at(head) is Ok {
        lemma_write_extends(head, tail);
        assert(head + tail =~= whole + Seq::<u8>::empty());
        a_journalled_write_reads_back(w, Seq::empty());
        assert(whole + Seq::<u8>::empty() =~= whole);
    }
}

/// Writes back to back.
pub open spec fn writes_bytes(ws: Seq<WriteModel>) -> Seq<u8>
    decreases ws.len(),
{
    if ws.len() == 0 {
        Seq::empty()
    } else {
        write_bytes(ws[0]) + writes_bytes(ws.drop_first())
    }
}

/// The writes that start `s`, up to the first bytes that are none.
pub open spec fn writes_at(s: Seq<u8>) -> Seq<WriteModel>
    decreases s.len(),
{
    match write_at(s) {
        Ok((w, k)) => if 0 < k <= s.len() {
            seq![w] + writes_at(s.skip(k as int))
        } else {
            Seq::empty()
        },
        Err(_) => Seq::empty(),
    }
}

/// The header.
pub open spec fn journal_magic() -> Seq<u8> {
    seq![88u8, 83u8, 72u8, 49u8]
}

/// A journal file.
pub open spec fn journal_bytes(ws: Seq<WriteModel>) -> Seq<u8> {
    journal_magic() + writes_bytes(ws)
}

/// The complaint about a file that is no journal.
pub open spec fn bad_header() -> Seq<char> {
    "coordinator journal has an unreadable header"@
}

/// What a journal file holds. No file and an empty one hold nothing.
pub open spec fn journal_holds(raw: Option<Seq<u8>>) -> Result<Seq<WriteModel>, Seq<char>> {
    match raw {
        None => Ok(Seq::empty()),
        Some(s) => if s.len() == 0 {
            Ok(Seq::empty())
        } else if s.len() < 4 || s.take(4) != journal_magic() {
            Err(bad_header())
        } else {
            Ok(writes_at(s.skip(4)))
        },
    }
}

proof fn lemma_writes_read_back(ws: Seq<WriteModel>, torn: Seq<u8>)
    requires
        forall|i: int| 0 <= i < ws.len() ==> journalable(#[trigger] ws[i]),
        write_at(torn) is Err,
    ensures
        writes_at(writes_bytes(ws) + torn) == ws,
    decreases ws.len(),
{
    if ws.len() > 0 {
        let others = ws.drop_first();
        let s = writes_bytes(ws) + torn;
        let tail = writes_bytes(others) + torn;
        let head = write_bytes(ws[0]);
        assert(s =~= head + tail);
        a_journalled_write_reads_back(ws[0], tail);
        lemma_write_extends(s, Seq::empty());
        assert(s.skip(head.len() as int) =~= tail);
        assert forall|i: int| 0 <= i < others.len() implies journalable(#[trigger] others[i]) by {
            assert(others[i] == ws[i + 1]);
        }
        lemma_writes_read_back(others, torn);
        assert(seq![ws[0]] + others =~= ws);
    } else {
        assert(writes_bytes(ws) + torn =~= torn);
        assert(ws =~= Seq::empty());
    }
}

/// A journal reads back as it was written, and one whose last write was torn
/// reads back as all the writes before it.
pub proof fn a_torn_tail_loses_nothing_before_it(ws: Seq<WriteModel>, last: WriteModel, n: int)
    requires
        forall|i: int| 0 <= i < ws.len() ==> journalable(#[trigger] ws[i]),
        journalable(last),
        0 <= n < write_bytes(last).len(),
    ensures
        journal_holds(Some(journal_bytes(ws) + write_bytes(last).take(n))) == Ok::<_, Seq<char>>(ws),
        journal_holds(Some(journal_bytes(ws))) == Ok::<_, Seq<char>>(ws),
{
    let torn = write_bytes(last).take(n);
    a_torn_write_is_not_read(last, n);
    lemma_writes_read_back(ws, torn);
    let s = journal_bytes(ws) + torn;
    assert(s.take(4) =~= journal_magic());
    assert(s.skip(4) =~= writes_bytes(ws) + torn);
    let none = Seq::<u8>::empty();
    assert(write_bytes(last).take(0) =~= none);
    a_torn_write_is_not_read(last, 0);
    lemma_writes_read_back(ws, none);
    let t = journal_bytes(ws);
    assert(t.take(4) =~= journal_magic());
    assert(t.skip(4) =~= writes_bytes(ws) + none);
}

// -- replay -------------------------------------------------------------------

/// The records of all shards.
pub type Stored = Map<(Seq<char>, u64), RecordModel>;

/// The records after a write.
pub open spec fn applied(m: Stored, w: WriteModel) -> Stored {
    match w.record {
        Some(r) => m.insert((w.collection, w.id), r),
        None => m.remove((w.collection, w.id)),
    }
}

/// The records after writes in turn.
pub open spec fn all_applied(m: Stored, ws: Seq<WriteModel>) -> Stored
    decreases ws.len(),
{
    if ws.len() == 0 {
        m
    } else {
        applied(all_applied(m, ws.drop_last()), ws.last())
    }
}

/// What writes leave under a key does not depend on what was there before, once
/// one of them is to that key.
proof fn lemma_settled_by_writes(a: Stored, b: Stored, ws: Seq<WriteModel>, key: (Seq<char>, u64))
    requires
        (exists|i: int|
            0 <= i < ws.len() && ((#[trigger] ws[i]).collection, ws[i].id) == key) || (
        a.dom().contains(key) == b.dom().contains(key) && (a.dom().contains(key) ==> a[key]
            == b[key])),
    ensures
        all_applied(a, ws).dom().contains(key) == all_applied(b, ws).dom().contains(key),
        all_applied(a, ws).dom().contains(key) ==> all_applied(a, ws)[key] == all_applied(
            b,
            ws,
        )[key],
    decreases ws.len(),
{
    if ws.len() > 0 {
        let rest = ws.drop_last();
        let last = ws.last();
        if (last.collection, last.id) != key {
            if exists|i: int|
                0 <= i < ws.len() && ((#[trigger] ws[i]).collection, ws[i].id) == key {
                let i = choose|i: int|
                    0 <= i < ws.len() && ((#[trigger] ws[i]).collection, ws[i].id) == key;
                assert(rest[i] == ws[i]);
            }
            lemma_settled_by_writes(a, b, rest, key);
        }
    }
}

proof fn lemma_untouched(m: Stored, ws: Seq<WriteModel>, key: (Seq<char>, u64))
    requires
        forall|i: int| 0 <= i < ws.len() ==> ((#[trigger] ws[i]).collection, ws[i].id) != key,
    ensures
        all_applied(m, ws).dom().contains(key) == m.dom().contains(key),
        m.dom().contains(key) ==> all_applied(m, ws)[key] == m[key],
    decreases ws.len(),
{
    if ws.len() > 0 {
        let rest = ws.drop_last();
        assert forall|i: int| 0 <= i < rest.len() implies (
            (#[trigger] rest[i]).collection,
            rest[i].id,
        ) != key by {
            assert(rest[i] == ws[i]);
        }
        assert(ws[ws.len() - 1] == ws.last());
        lemma_untouched(m, rest, key);
    }
}

/// Replaying a journal over however much of it was already applied lands on the
/// committed state.
pub proof fn replaying_converges(m: Stored, ws: Seq<WriteModel>, done: int)
    requires
        0 <= done <= ws.len(),
    ensures
        all_applied(all_applied(m, ws.take(done)), ws) == all_applied(m, ws),
{
    let part = all_applied(m, ws.take(done));
    let a = all_applied(part, ws);
    let b = all_applied(m, ws);
    assert forall|key: (Seq<char>, u64)|
        #![trigger a.dom().contains(key)]
        #![trigger b.dom().contains(key)]
        a.dom().contains(key) == b.dom().contains(key) && (a.dom().contains(key) ==> a[key]
            == b[key]) by {
        if !(exists|i: int|
            0 <= i < ws.len() && ((#[trigger] ws[i]).collection, ws[i].id) == key) {
            assert forall|i: int| 0 <= i < ws.take(done).len() implies (
                (#[trigger] ws.take(done)[i]).collection,
                ws.take(done)[i].id,
            ) != key by {
                assert(ws.take(done)[i] == ws[i]);
            }
            lemma_untouched(m, ws.take(done), key);
        }
        lemma_settled_by_writes(part, m, ws, key);
    }
    assert(a.dom() =~= b.dom());
    assert(a =~= b);
}

// -- reading and writing ------------------------------------------------------

/// What the last field of a name holds.
pub open spec fn last_value(r: RecordModel, name: Seq<char>) -> Option<ValueModel>
    decreases r.len(),
{
    if r.len() == 0 {
        None
    } else if r.last().0 == name {
        Some(r.last().1)
    } else {
        last_value(r.drop_last(), name)
    }
}

/// Whether a record is what fields make, set in turn.
pub open spec fn made_of(rec: RecordModel, fields: RecordModel) -> bool {
    named_in_order(rec) && forall|name: Seq<char>| #[trigger]
        field_of(rec, name) == last_value(fields, name)
}

/// Whether a write is what was read.
pub open spec fn reads_as(w: WriteModel, m: WriteModel) -> bool {
    &&& w.collection == m.collection
    &&& w.id == m.id
    &&& match (w.record, m.record) {
        (Some(rec), Some(fields)) => made_of(rec, fields),
        (None, None) => true,
        _ => false,
    }
}

proof fn lemma_last_value(r: RecordModel, name: Seq<char>)
    requires
        named_in_order(r),
    ensures
        last_value(r, name) == field_of(r, name),
    decreases r.len(),
{
    crate::record::lemma_field_is_found(r, name);
    if r.len() > 0 {
        let rest = r.drop_last();
        let n = rest.len() as int;
        assert(named_in_order(rest)) by {
            assert forall|i: int, j: int|
                #![trigger rest[i], rest[j]]
                0 <= i < j < rest.len() implies crate::text::text_before(rest[i].0, rest[j].0) by {
                assert(rest[i] == r[i] && rest[j] == r[j]);
            }
        }
        assert(r =~= rest.insert(n, r.last()));
        if r.last().0 == name {
            assert forall|j: int| 0 <= j < n implies (#[trigger] r[j]).0 != name by {
                crate::text::lemma_text_before_total(r[j].0, r[n].0);
            }
            crate::assoc::lemma_find_at(r, name, n);
        } else {
            lemma_last_value(rest, name);
            crate::record::lemma_field_is_found(rest, name);
            crate::assoc::lemma_find_insert(rest, n, r.last(), name);
        }
    }
}

/// A write that was journalled is read as itself.
pub proof fn a_write_reads_as_itself(w: WriteModel, m: WriteModel)
    requires
        m.record matches Some(r) ==> named_in_order(r),
        reads_as(w, m),
    ensures
        w == m,
{
    if let (Some(rec), Some(fields)) = (w.record, m.record) {
        assert forall|name: Seq<char>| #[trigger] field_of(rec, name) == field_of(fields, name) by {
            lemma_last_value(fields, name);
        }
        fields_determine_a_record(rec, fields);
    }
}

/// The name at a place and where it ends.
fn read_name(buf: &[u8], pos: usize) -> (r: Result<(String, usize), JournalFault>)
    requires
        pos <= buf@.len(),
    ensures
        match string_at(buf@.skip(pos as int)) {
            Some((t, k)) => r matches Ok((s, end)) && s@ == t && end == pos + k && end
                <= buf@.len(),
            None => r == Err::<(String, usize), JournalFault>(name_fault(buf@.skip(pos as int))),
        },
{
    let len: usize = buf.len();
    let ghost t = buf@.skip(pos as int);
    match read_u32(buf, pos) {
        None => Err(JournalFault::Cut),
        Some(n) => {
            assert(pos + 4 <= len);
            match take(buf, pos + 4, n as usize) {
                None => Err(JournalFault::Cut),
                Some(raw) => {
                    assert(raw@ =~= t.subrange(4, 4 + n));
                    match utf8_text(raw) {
                        Ok(s) => Ok((s, pos + 4 + n as usize)),
                        Err(b) => Err(JournalFault::Name(b)),
                    }
                },
            }
        },
    }
}

fn fault(f: JournalFault) -> (e: Error)
    ensures
        e@ == fault_error(f),
{
    match f {
        JournalFault::Cut => Error::Io("failed to fill whole buffer".to_owned()),
        JournalFault::Name(b) => Error::Corruption(b.said_after("coordinator journal name: ")),
        JournalFault::Value => Error::Corruption(
            "coordinator journal value: does not decode".to_owned(),
        ),
        JournalFault::Kind(k) => {
            let mut s = "coordinator journal: unknown write kind ".to_owned();
            s.append(dec(k as u64).as_str());
            Error::Corruption(s)
        },
    }
}

/// Read `n` fields from `pos` on.
fn read_fields(buf: &[u8], pos: usize, n: u32) -> (r: Result<(Record, usize), JournalFault>)
    requires
        pos <= buf@.len(),
    ensures
        match fields_at(buf@.skip(pos as int), n as nat) {
            Ok((fields, k)) => r matches Ok((rec, end)) && end == pos + k && end <= buf@.len()
                && made_of(rec.model(), fields),
            Err(f) => r == Err::<(Record, usize), JournalFault>(f),
        },
{
    let ghost s = buf@.skip(pos as int);
    let mut rec = Record::new();
    let mut at: usize = pos;
    let mut i: u32 = 0;
    let ghost mut read: RecordModel = Seq::empty();
    proof {
        assert(buf@.skip(at as int) == s);
        match fields_at(s, n as nat) {
            Ok((r, k)) => {
                assert(read + r =~= r);
            },
            Err(_) => {},
        }
    }
    while i < n
        invariant
            i <= n,
            pos <= at <= buf@.len(),
            s == buf@.skip(pos as int),
            forall|name: Seq<char>| #[trigger] rec.field(name) == last_value(read, name),
            match fields_at(buf@.skip(at as int), (n - i) as nat) {
                Ok((rest, k)) => fields_at(s, n as nat) == Ok::<_, JournalFault>(
                    (read + rest, (at - pos + k) as nat),
                ),
                Err(f) => fields_at(s, n as nat) == Err::<(RecordModel, nat), JournalFault>(f),
            },
        decreases n - i,
    {
        let ghost t = buf@.skip(at as int);
        let (name, next) = match read_name(buf, at) {
            Ok(x) => x,
            Err(f) => {
                return Err(f);
            },
        };
        assert(buf@.skip(next as int) =~= t.skip(next - at));
        let (v, end) = match decode_value(buf, next) {
            Some(x) => x,
            None => {
                return Err(JournalFault::Value);
            },
        };
        let ghost before = rec;
        let ghost old_read = read;
        let ghost field = (name@, v.model());
        rec.set(name.as_str(), v);
        proof {
            read = old_read.push(field);
            assert(read.drop_last() =~= old_read);
            assert(buf@.skip(end as int) =~= t.skip(end - at));
            assert forall|other: Seq<char>| #[trigger] rec.field(other) == last_value(
                read,
                other,
            ) by {
                assert(before.field(other) == last_value(old_read, other));
            }
            match fields_at(buf@.skip(end as int), (n - i - 1) as nat) {
                Ok((rest, k)) => {
                    assert(old_read + (seq![field] + rest) =~= read + rest);
                },
                Err(_) => {},
            }
        }
        at = end;
        i += 1;
    }
    proof {
        assert(fields_at(buf@.skip(at as int), 0) == Ok::<(RecordModel, nat), JournalFault>(
            (Seq::empty(), 0),
        ));
        assert(read + Seq::<(Seq<char>, ValueModel)>::empty() =~= read);
        use_type_invariant(&rec);
        assert forall|name: Seq<char>| #[trigger] field_of(rec.model(), name) == last_value(
            read,
            name,
        ) by {
            assert(rec.field(name) == field_of(rec.model(), name));
        }
    }
    Ok((rec, at))
}

impl CrossShardWrite {
    /// Append the write to a journal.
    pub fn encode(&self, out: &mut Vec<u8>)
        requires
            writable(self@),
        ensures
            final(out)@ == old(out)@ + write_bytes(self@),
    {
        let ghost start = out@;
        put_str(self.collection.as_str(), out);
        put_bytes(u64_to_le_bytes(self.id).as_slice(), out);
        match &self.record {
            None => {
                out.push(0);
                assert(out@ =~= start + write_bytes(self@));
            },
            Some(rec) => {
                let ghost r = rec.model();
                out.push(1);
                put_bytes(u32_to_le_bytes(rec.len() as u32).as_slice(), out);
                let ghost head = out@;
                assert(r.skip(0) =~= r);
                let mut i: usize = 0;
                while i < rec.len()
                    invariant
                        i <= r.len(),
                        r == rec.model(),
                        out@ + fields_bytes(r.skip(i as int)) == head + fields_bytes(r),
                    decreases r.len() - i,
                {
                    let ghost before = out@;
                    put_str(rec.name_at(i), out);
                    encode_value(rec.value_at(i), out);
                    assert(r.skip(i as int).drop_first() =~= r.skip(i + 1));
                    assert(r.skip(i as int)[0] == r[i as int]);
                    assert(out@ + fields_bytes(r.skip(i + 1)) =~= before + fields_bytes(
                        r.skip(i as int),
                    ));
                    i += 1;
                }
                assert(r.skip(i as int) =~= Seq::empty());
                assert(out@ =~= out@ + fields_bytes(r.skip(i as int)));
                assert(out@ =~= start + write_bytes(self@));
            },
        }
    }

    /// The write that starts a buffer, and how many bytes it takes.
    pub fn decode(buf: &[u8]) -> (r: Result<(CrossShardWrite, usize), Error>)
        ensures
            match write_at(buf@) {
                Ok((m, k)) => r matches Ok((w, used)) && used == k && used <= buf@.len() && reads_as(
                    w@,
                    m,
                ),
                Err(f) => r matches Err(e) && e@ == fault_error(f),
            },
    {
        let len: usize = buf.len();
        assert(buf@.skip(0) =~= buf@);
        let (collection, at) = match read_name(buf, 0) {
            Ok(x) => x,
            Err(f) => {
                return Err(fault(f));
            },
        };
        let ghost t = buf@.skip(at as int);
        if len - at < 8 {
            return Err(fault(JournalFault::Cut));
        }
        assert(buf@.subrange(at as int, at + 8) =~= t.take(8));
        let id: u64 = u64_from_le_bytes(slice_subrange(buf, at, at + 8));
        let start: usize = at + 8;
        let ghost u = t.skip(8);
        assert(buf@.skip(start as int) =~= u);
        if len - start < 1 {
            return Err(fault(JournalFault::Cut));
        }
        let kind: u8 = buf[start];
        assert(u[0] == kind);
        if kind == 0 {
            return Ok((CrossShardWrite { collection, id, record: None }, start + 1));
        }
        if kind != 1 {
            return Err(fault(JournalFault::Kind(kind)));
        }
        assert(buf@.skip(start + 1) =~= u.skip(1));
        let n = match read_u32(buf, start + 1) {
            Some(n) => n,
            None => {
                return Err(fault(JournalFault::Cut));
            },
        };
        assert(u.skip(1).len() >= 4);
        assert(buf@.skip(start + 5) =~= u.skip(5));
        match read_fields(buf, start + 5, n) {
            Err(f) => Err(fault(f)),
            Ok((rec, end)) => Ok((CrossShardWrite { collection, id, record: Some(rec) }, end)),
        }
    }
}

/// A journal file of writes.
pub fn write_journal(writes: &Vec<CrossShardWrite>) -> (out: Vec<u8>)
    requires
        forall|i: int| 0 <= i < writes@.len() ==> writable((#[trigger] writes@[i])@),
    ensures
        out@ == journal_bytes(write_models(writes@)),
{
    let ghost all = write_models(writes@);
    let mut out: Vec<u8> = vec![88, 83, 72, 49];
    assert(out@ =~= journal_magic());
    let mut i: usize = 0;
    assert(all.skip(0) =~= all);
    while i < writes.len()
        invariant
            i <= writes@.len(),
            all == write_models(writes@),
            forall|k: int| 0 <= k < writes@.len() ==> writable((#[trigger] writes@[k])@),
            out@ + writes_bytes(all.skip(i as int)) == journal_magic() + writes_bytes(all),
        decreases writes.len() - i,
    {
        let ghost before = out@;
        writes[i].encode(&mut out);
        assert(all.skip(i as int).drop_first() =~= all.skip(i + 1));
        assert(all.skip(i as int)[0] == all[i as int]);
        assert(out@ + writes_bytes(all.skip(i + 1)) =~= before + writes_bytes(all.skip(i as int)));
        i += 1;
    }
    assert(all.skip(i as int) =~= Seq::empty());
    assert(out@ =~= out@ + writes_bytes(all.skip(i as int)));
    out
}

/// Whether writes are what was read, one for one.
pub open spec fn all_read_as(ws: Seq<CrossShardWrite>, ms: Seq<WriteModel>) -> bool {
    ws.len() == ms.len() && forall|i: int| 0 <= i < ws.len() ==> reads_as((#[trigger] ws[i])@, ms[i])
}

/// What a journal file holds: all its writes up to the first bytes that are
/// none. Refused where the file does not begin as a journal does.
pub fn load_journal(raw: Option<&[u8]>) -> (r: Result<Vec<CrossShardWrite>, Error>)
    ensures
        match journal_holds(
            match raw {
                Some(s) => Some(s@),
                None => None,
            },
        ) {
            Ok(ms) => r matches Ok(ws) && all_read_as(ws@, ms),
            Err(text) => r matches Err(e) && e@ == ErrorModel::Corruption(text),
        },
{
    let mut out: Vec<CrossShardWrite> = Vec::new();
    let raw = match raw {
        Some(s) => s,
        None => {
            return Ok(out);
        },
    };
    let len: usize = raw.len();
    if len == 0 {
        return Ok(out);
    }
    if len < 4 || raw[0] != 88 || raw[1] != 83 || raw[2] != 72 || raw[3] != 49 {
        proof {
            if len >= 4 {
                let head = raw@.take(4);
                assert(head[0] == raw@[0] && head[1] == raw@[1] && head[2] == raw@[2] && head[3]
                    == raw@[3]);
            }
        }
        return Err(Error::Corruption("coordinator journal has an unreadable header".to_owned()));
    }
    assert(raw@.take(4) =~= journal_magic());
    let ghost all = writes_at(raw@.skip(4));
    let ghost mut read: Seq<WriteModel> = Seq::empty();
    let mut at: usize = 4;
    assert(read + all =~= all);
    while at < len
        invariant_except_break
            4 <= at <= len,
            len == raw@.len(),
            read + writes_at(raw@.skip(at as int)) == all,
            all_read_as(out@, read),
        ensures
            all_read_as(out@, all),
        decreases len - at,
    {
        let ghost s = raw@.skip(at as int);
        let rest = slice_subrange(raw, at, len);
        assert(rest@ =~= s);
        match CrossShardWrite::decode(rest) {
            Ok((w, used)) => {
                proof {
                    lemma_write_extends(s, Seq::empty());
                    let m = write_at(s)->Ok_0.0;
                    let before = read;
                    read = before.push(m);
                    assert(raw@.skip(at + used) =~= s.skip(used as int));
                    assert(before + (seq![m] + writes_at(s.skip(used as int))) =~= read + writes_at(
                        s.skip(used as int),
                    ));
                }
                out.push(w);
                at = at + used;
            },
            Err(_) => {
                proof {
                    assert(read + Seq::<WriteModel>::empty() =~= read);
                }
                break;
            },
        }
        proof {
            if at == len {
                assert(raw@.skip(at as int) =~= Seq::empty());
                lemma_nothing_is_no_write();
                assert(read + Seq::<WriteModel>::empty() =~= read);
            }
        }
    }
    Ok(out)
}

proof fn lemma_nothing_is_no_write()
    ensures
        writes_at(Seq::empty()) == Seq::<WriteModel>::empty(),
{
    assert(string_at(Seq::empty()) is None);
}

/// What opening does about a journal it finds.
#[derive(Debug)]
pub enum Recovery {
    /// Finish these writes, which were promised, and drop the journal.
    Replay(Vec<CrossShardWrite>),
    /// Leave the journal as it is, for an operator.
    Leave,
}

/// What opening is to do about a journal. It never fails: what does not begin as a
/// journal does is left alone, and nothing is replayed from it.
pub fn recovery(raw: Option<&[u8]>) -> (r: Recovery)
    ensures
        match journal_holds(
            match raw {
                Some(s) => Some(s@),
                None => None,
            },
        ) {
            Ok(ms) => r matches Recovery::Replay(ws) && all_read_as(ws@, ms),
            Err(_) => r is Leave,
        },
{
    match load_journal(raw) {
        Ok(ws) => Recovery::Replay(ws),
        Err(_) => Recovery::Leave,
    }
}

/// What is to be journalled for a commit: what an earlier attempt left, which
/// was promised, and then the new writes. Nothing to write journals nothing.
pub fn commit_coordinated(raw: Option<&[u8]>, writes: Vec<CrossShardWrite>) -> (r: Result<
    Vec<CrossShardWrite>,
    Error,
>)
    ensures
        if writes@.len() == 0 {
            r matches Ok(ws) && ws@.len() == 0
        } else {
            match journal_holds(
                match raw {
                    Some(s) => Some(s@),
                    None => None,
                },
            ) {
                Ok(ms) => r matches Ok(ws) && ws@.len() == ms.len() + writes@.len() && all_read_as(
                    ws@.take(ms.len() as int),
                    ms,
                ) && ws@.skip(ms.len() as int) == writes@,
                Err(text) => r matches Err(e) && e@ == ErrorModel::Corruption(text),
            }
        },
{
    let mut writes = writes;
    if writes.len() == 0 {
        return Ok(writes);
    }
    let ghost added = writes@;
    match load_journal(raw) {
        Ok(mut journal) => {
            let ghost pending = journal@;
            journal.append(&mut writes);
            assert(journal@.take(pending.len() as int) =~= pending);
            assert(journal@.skip(pending.len() as int) =~= added);
            Ok(journal)
        },
        Err(e) => Err(e),
    }
}

/// Writes applied in turn leave under a key what the last of them to it put there, or
/// nothing where that one deleted; and what was there before, where none was to it.
pub proof fn the_last_write_to_a_key_counts(m: Stored, ws: Seq<WriteModel>, i: int, key: (Seq<char>, u64))
    requires
        0 <= i < ws.len(),
        forall|j: int| i < j < ws.len() ==> ((#[trigger] ws[j]).collection, ws[j].id) != (
            ws[i].collection,
            ws[i].id,
        ),
    ensures
        ({
            let own = (ws[i].collection, ws[i].id);
            let after = all_applied(m, ws);
            match ws[i].record {
                Some(r) => after.dom().contains(own) && after[own] == r,
                None => !after.dom().contains(own),
            }
        }),
        (forall|j: int| 0 <= j < ws.len() ==> ((#[trigger] ws[j]).collection, ws[j].id) != key) ==> (
        all_applied(m, ws).dom().contains(key) == m.dom().contains(key) && (m.dom().contains(key)
            ==> all_applied(m, ws)[key] == m[key])),
    decreases ws.len(),
{
    if i < ws.len() - 1 {
        let rest = ws.drop_last();
        assert forall|j: int| i < j < rest.len() implies (
            (#[trigger] rest[j]).collection,
            rest[j].id,
        ) != (rest[i].collection, rest[i].id) by {
            assert(rest[j] == ws[j]);
        }
        assert(rest[i] == ws[i]);
        the_last_write_to_a_key_counts(m, rest, i, key);
        assert(ws[ws.len() - 1] == ws.last());
    }
    if forall|j: int| 0 <= j < ws.len() ==> ((#[trigger] ws[j]).collection, ws[j].id) != key {
        lemma_untouched(m, ws, key);
    }
}

} // verus!
