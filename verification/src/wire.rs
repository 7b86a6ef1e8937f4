//! The byte forms shared by everything that is written down: variable-length
//! integers, text and values.

use vstd::bytes::*;
use vstd::prelude::*;
use vstd::slice::*;
use vstd::utf8::*;
use crate::text::{dec_text, push_dec};
use crate::value::{Value, ValueModel};

verus! {

// -- variable-length integers ------------------------------------------------

/// Longest variable-length integer, in bytes.
pub const VARINT_MAX: u8 = 10;

/// Seven bits per byte, least significant first; every byte but the last has
/// its high bit set. No number has a second form.
#[verifier::opaque]
pub open spec fn varint_bytes(n: nat) -> Seq<u8>
    decreases n,
{
    if n < 128 {
        seq![n as u8]
    } else {
        seq![(n % 128 + 128) as u8] + varint_bytes(n / 128)
    }
}

/// The number that starts `s` and how many bytes it takes, looking at no more
/// than `left` bytes. A needless trailing zero group is refused.
pub open spec fn varint_prefix(s: Seq<u8>, left: nat) -> Option<(nat, nat)>
    decreases left,
{
    if left == 0 || s.len() == 0 {
        None
    } else if s[0] < 128 {
        Some((s[0] as nat, 1))
    } else {
        match varint_prefix(s.drop_first(), (left - 1) as nat) {
            Some((v, k)) if v > 0 => Some(((v * 128 + (s[0] - 128)) as nat, k + 1)),
            _ => None,
        }
    }
}

/// The number that starts `s`, when it fits 64 bits.
#[verifier::opaque]
pub open spec fn varint_at(s: Seq<u8>) -> Option<(nat, nat)> {
    match varint_prefix(s, VARINT_MAX as nat) {
        Some((v, k)) if v <= u64::MAX => Some((v, k)),
        _ => None,
    }
}

spec fn pow128(k: nat) -> nat
    decreases k,
{
    if k == 0 {
        1
    } else {
        128 * pow128((k - 1) as nat)
    }
}

proof fn lemma_varint_prefix_of_bytes(n: nat, left: nat, rest: Seq<u8>)
    requires
        left > 0,
        n < pow128(left),
    ensures
        varint_prefix(varint_bytes(n) + rest, left) == Some((n, varint_bytes(n).len())),
    decreases left,
{
    reveal(varint_bytes);
    let s = varint_bytes(n) + rest;
    if n >= 128 {
        if left == 1 {
            reveal_with_fuel(pow128, 2);
        }
        assert(n / 128 < pow128((left - 1) as nat));
        lemma_varint_prefix_of_bytes(n / 128, (left - 1) as nat, rest);
        assert(s.drop_first() =~= varint_bytes(n / 128) + rest);
    }
}

/// Reading back a written number gives the number and its length, whatever
/// follows it.
pub proof fn lemma_varint_round_trip(n: nat, rest: Seq<u8>)
    requires
        n <= u64::MAX,
    ensures
        varint_at(varint_bytes(n) + rest) == Some((n, varint_bytes(n).len())),
{
    reveal(varint_at);
    reveal_with_fuel(pow128, 11);
    lemma_varint_prefix_of_bytes(n, VARINT_MAX as nat, rest);
}

proof fn lemma_varint_prefix_is_bytes(s: Seq<u8>, left: nat)
    ensures
        varint_prefix(s, left) matches Some((v, k)) ==> 0 < k <= s.len() && s.take(k as int)
            == varint_bytes(v),
    decreases left,
{
    reveal(varint_bytes);
    if left > 0 && s.len() > 0 {
        if s[0] < 128 {
            assert(s.take(1) =~= varint_bytes(s[0] as nat));
        } else {
            lemma_varint_prefix_is_bytes(s.drop_first(), (left - 1) as nat);
            match varint_prefix(s.drop_first(), (left - 1) as nat) {
                Some((v, k)) if v > 0 => {
                    let n = (v * 128 + (s[0] - 128)) as nat;
                    assert(n / 128 == v && n % 128 == s[0] - 128);
                    assert(s.take((k + 1) as int) =~= seq![s[0]] + s.drop_first().take(k as int));
                },
                _ => {},
            }
        }
    }
}

/// A number that reads is the one whose written form is there.
pub proof fn lemma_varint_canonical(s: Seq<u8>)
    ensures
        varint_at(s) matches Some((v, k)) ==> 0 < k <= s.len() && s.take(k as int) == varint_bytes(
            v,
        ) && v <= u64::MAX,
{
    reveal(varint_at);
    lemma_varint_prefix_is_bytes(s, VARINT_MAX as nat);
}

/// Append a number.
pub fn write_u64(n: u64, out: &mut Vec<u8>)
    ensures
        final(out)@ == old(out)@ + varint_bytes(n as nat),
    decreases n,
{
    reveal(varint_bytes);
    if n < 128 {
        out.push(n as u8);
    } else {
        out.push((n % 128 + 128) as u8);
        let ghost mid = out@;
        write_u64(n / 128, out);
        assert(out@ =~= old(out)@ + varint_bytes(n as nat));
    }
}

fn read_prefix(buf: &[u8], pos: usize, left: u8) -> (r: Option<(u64, usize)>)
    requires
        pos <= buf@.len(),
        left <= VARINT_MAX,
    ensures
        match varint_prefix(buf@.skip(pos as int), left as nat) {
            Some((v, k)) if v <= u64::MAX => r == Some((v as u64, (pos + k) as usize)) && pos + k
                <= buf@.len(),
            _ => r is None,
        },
    decreases left,
{
    if left == 0 || pos >= buf.len() {
        return None;
    }
    let b = buf[pos];
    if b < 128 {
        return Some((b as u64, pos + 1));
    }
    assert(buf@.skip(pos as int).drop_first() =~= buf@.skip(pos + 1));
    proof {
        lemma_varint_prefix_is_bytes(buf@.skip(pos as int), left as nat);
    }
    let low: u64 = (b - 128) as u64;
    match read_prefix(buf, pos + 1, left - 1) {
        Some((v, end)) => {
            if v == 0 || v > (u64::MAX - low) / 128 {
                None
            } else {
                Some((v * 128 + low, end))
            }
        },
        None => None,
    }
}

/// The number at `pos` and the position behind it.
pub fn read_u64(buf: &[u8], pos: usize) -> (r: Option<(u64, usize)>)
    requires
        pos <= buf@.len(),
    ensures
        match varint_at(buf@.skip(pos as int)) {
            Some((v, k)) => r == Some((v as u64, (pos + k) as usize)) && pos + k <= buf@.len(),
            None => r is None,
        },
{
    reveal(varint_at);
    read_prefix(buf, pos, VARINT_MAX)
}

// -- text --------------------------------------------------------------------

/// Append bytes.
pub fn put_bytes(bytes: &[u8], out: &mut Vec<u8>)
    ensures
        final(out)@ == old(out)@ + bytes@,
{
    out.extend_from_slice(bytes);
    assert(out@ =~= old(out)@ + bytes@);
}

/// Text as its length in bytes and the bytes.
#[verifier::opaque]
pub open spec fn text_bytes(s: Seq<char>) -> Seq<u8> {
    varint_bytes(encode_utf8(s).len()) + encode_utf8(s)
}

/// Where bytes stop being UTF-8: they end in the middle of a character, or the next `len`
/// of them belong to none.
#[derive(Clone, Copy, Debug, PartialEq, Eq, Structural)]
pub enum BadText {
    Incomplete { from: usize },
    Invalid { from: usize, len: usize },
}

/// The most of the first `n` bytes that are UTF-8.
pub open spec fn valid_up_to(bytes: Seq<u8>, n: nat) -> nat
    decreases n,
{
    if n == 0 || valid_utf8(bytes.take(n as int)) {
        n
    } else {
        valid_up_to(bytes, (n - 1) as nat)
    }
}

/// How many of the bytes that begin where they stop being UTF-8 belong to no character.
/// Nothing where there are too few of them to tell. This is `Utf8Error::error_len` of
/// what `std::str::from_utf8` gives.
pub uninterp spec fn utf8_error_len(bytes: Seq<u8>) -> Option<usize>;

/// Where bytes that are not UTF-8 stop being so.
pub open spec fn bad_text(bytes: Seq<u8>) -> BadText {
    let from = valid_up_to(bytes, bytes.len()) as usize;
    match utf8_error_len(bytes) {
        None => BadText::Incomplete { from },
        Some(len) => BadText::Invalid { from, len },
    }
}

/// What is said of bytes that are not UTF-8.
pub open spec fn bad_text_said(b: BadText) -> Seq<char> {
    match b {
        BadText::Incomplete { from } => "incomplete utf-8 byte sequence from index "@ + dec_text(
            from as nat,
        ),
        BadText::Invalid { from, len } => "invalid utf-8 sequence of "@ + dec_text(len as nat)
            + " bytes from index "@ + dec_text(from as nat),
    }
}

impl BadText {
    /// What is said of these bytes, put behind `head`.
    pub fn said_after(&self, head: &str) -> (s: String)
        ensures
            s@ == head@ + bad_text_said(*self),
    {
        let mut s = head.to_owned();
        match self {
            BadText::Incomplete { from } => {
                s.append("incomplete utf-8 byte sequence from index ");
                push_dec(&mut s, *from as u64);
            },
            BadText::Invalid { from, len } => {
                s.append("invalid utf-8 sequence of ");
                push_dec(&mut s, *len as u64);
                s.append(" bytes from index ");
                push_dec(&mut s, *from as u64);
            },
        }
        assert(s@ =~= head@ + bad_text_said(*self));
        s
    }
}

/// Why text does not read.
#[derive(Clone, Copy, Debug, PartialEq, Eq, Structural)]
pub enum TextFault {
    /// The length does not read.
    Length,
    /// The bytes end before the text does.
    Short,
    /// The bytes are not UTF-8.
    Utf8(BadText),
}

/// The text that starts `s` and how many bytes it takes.
#[verifier::opaque]
pub open spec fn text_at(s: Seq<u8>) -> Result<(Seq<char>, nat), TextFault> {
    match varint_at(s) {
        None => Err(TextFault::Length),
        Some((n, k)) => if k + n > s.len() {
            Err(TextFault::Short)
        } else if !valid_utf8(s.subrange(k as int, (k + n) as int)) {
            Err(TextFault::Utf8(bad_text(s.subrange(k as int, (k + n) as int))))
        } else {
            Ok((decode_utf8(s.subrange(k as int, (k + n) as int)), k + n))
        },
    }
}

pub proof fn lemma_text_round_trip(s: Seq<char>, rest: Seq<u8>)
    requires
        encode_utf8(s).len() <= u64::MAX,
    ensures
        text_at(text_bytes(s) + rest) == Ok::<(Seq<char>, nat), TextFault>(
            (s, text_bytes(s).len()),
        ),
{
    reveal(text_at);
    reveal(text_bytes);
    let n = encode_utf8(s).len();
    let whole = text_bytes(s) + rest;
    assert(whole =~= varint_bytes(n) + (encode_utf8(s) + rest));
    lemma_varint_round_trip(n, encode_utf8(s) + rest);
    let k = varint_bytes(n).len();
    assert(whole.subrange(k as int, (k + n) as int) =~= encode_utf8(s));
    encode_utf8_valid_utf8(s);
    encode_utf8_decode_utf8(s);
}

pub proof fn lemma_text_canonical(s: Seq<u8>)
    ensures
        text_at(s) matches Ok((t, k)) ==> 0 < k <= s.len() && s.take(k as int) == text_bytes(t)
            && encode_utf8(t).len() <= u64::MAX,
{
    reveal(text_at);
    reveal(text_bytes);
    lemma_varint_canonical(s);
    match text_at(s) {
        Ok((t, end)) => {
            let (n, k) = varint_at(s)->0;
            let raw = s.subrange(k as int, (k + n) as int);
            decode_utf8_encode_utf8(raw);
            assert(s.take(end as int) =~= s.take(k as int) + raw);
        },
        Err(_) => {},
    }
}

/// Bytes as text, by `std::str::from_utf8`: it succeeds exactly on valid UTF-8
/// and gives the characters the bytes encode. Where it fails, its error's `valid_up_to`
/// is the most bytes that are valid, and its `error_len`, which is told by the bytes
/// alone, is nothing only where one to three bytes are left.
#[verifier::external_body]
fn utf8_str(bytes: &[u8]) -> (r: Result<&str, (usize, Option<usize>)>)
    ensures
        r is Ok <==> valid_utf8(bytes@),
        r matches Ok(s) ==> s@ == decode_utf8(bytes@),
        r matches Err(e) ==> e.0 == valid_up_to(bytes@, bytes@.len()) && e.1 == utf8_error_len(
            bytes@,
        ),
        r matches Err(e) ==> (e.1 is None ==> 1 <= bytes@.len() - e.0 <= 3),
{
    match std::str::from_utf8(bytes) {
        Ok(s) => Ok(s),
        Err(e) => Err((e.valid_up_to(), e.error_len())),
    }
}

/// Text from bytes, or where they stop being UTF-8.
pub fn utf8_text(bytes: &[u8]) -> (r: Result<String, BadText>)
    ensures
        match r {
            Ok(s) => valid_utf8(bytes@) && s@ == decode_utf8(bytes@) && encode_utf8(s@) == bytes@,
            Err(b) => !valid_utf8(bytes@) && b == bad_text(bytes@),
        },
{
    match utf8_str(bytes) {
        Ok(s) => {
            proof {
                decode_utf8_encode_utf8(bytes@);
            }
            Ok(s.to_owned())
        },
        Err((from, len)) => match len {
            None => Err(BadText::Incomplete { from }),
            Some(len) => Err(BadText::Invalid { from, len }),
        },
    }
}

/// Text from bytes, where they are UTF-8.
pub fn utf8_string(bytes: &[u8]) -> (r: Option<String>)
    ensures
        r is Some <==> valid_utf8(bytes@),
        r matches Some(s) ==> s@ == decode_utf8(bytes@) && encode_utf8(s@) == bytes@,
{
    match utf8_text(bytes) {
        Ok(s) => Some(s),
        Err(_) => None,
    }
}

/// Append text.
pub fn put_text(s: &str, out: &mut Vec<u8>)
    ensures
        final(out)@ == old(out)@ + text_bytes(s@),
        encode_utf8(s@).len() <= u64::MAX,
{
    reveal(text_bytes);
    let bytes = s.as_bytes();
    write_u64(bytes.len() as u64, out);
    put_bytes(bytes, out);
    assert(out@ =~= old(out)@ + text_bytes(s@));
}

/// The text at `pos` and the position behind it.
pub fn read_text(buf: &[u8], pos: usize) -> (r: Result<(String, usize), TextFault>)
    requires
        pos <= buf@.len(),
    ensures
        match text_at(buf@.skip(pos as int)) {
            Ok((t, k)) => r matches Ok((s, end)) && s@ == t && end == pos + k && end <= buf@.len(),
            Err(f) => r matches Err(g) && g == f,
        },
{
    reveal(text_at);
    let ghost tail = buf@.skip(pos as int);
    proof {
        lemma_varint_canonical(tail);
    }
    match read_u64(buf, pos) {
        None => Err(TextFault::Length),
        Some((n, start)) => {
            if n > (buf.len() - start) as u64 {
                return Err(TextFault::Short);
            }
            let end: usize = start + n as usize;
            assert(buf@.subrange(start as int, end as int) =~= tail.subrange(
                start - pos,
                end - pos,
            ));
            match utf8_text(slice_subrange(buf, start, end)) {
                Ok(s) => Ok((s, end)),
                Err(b) => Err(TextFault::Utf8(b)),
            }
        },
    }
}

// -- values ------------------------------------------------------------------

/// How deep lists may nest and still read back.
pub const MAX_NESTING: u8 = 32;

pub const TAG_NULL: u8 = 0;

pub const TAG_BOOL: u8 = 1;

pub const TAG_I64: u8 = 2;

pub const TAG_U64: u8 = 3;

pub const TAG_F64: u8 = 4;

pub const TAG_STR: u8 = 5;

pub const TAG_BYTES: u8 = 6;

pub const TAG_LIST: u8 = 7;

/// A value as a tag and its content.
#[verifier::opaque]
pub open spec fn value_bytes(v: ValueModel) -> Seq<u8>
    decreases v,
{
    match v {
        ValueModel::Null => seq![TAG_NULL],
        ValueModel::Bool(b) => seq![TAG_BOOL, if b { 1u8 } else { 0u8 }],
        ValueModel::I64(n) => seq![TAG_I64] + spec_u64_to_le_bytes(n as u64),
        ValueModel::U64(n) => seq![TAG_U64] + spec_u64_to_le_bytes(n),
        ValueModel::F64(bits) => seq![TAG_F64] + spec_u64_to_le_bytes(bits),
        ValueModel::Str(s) => seq![TAG_STR] + text_bytes(s),
        ValueModel::Bytes(b) => seq![TAG_BYTES] + varint_bytes(b.len()) + b,
        ValueModel::List(items) => seq![TAG_LIST] + varint_bytes(items.len()) + values_bytes(items),
    }
}

/// Values one after the other.
#[verifier::opaque]
pub open spec fn values_bytes(items: Seq<ValueModel>) -> Seq<u8>
    decreases items,
{
    if items.len() == 0 {
        Seq::empty()
    } else {
        value_bytes(items[0]) + values_bytes(items.drop_first())
    }
}

/// Whether every length inside `v` fits a written length.
#[verifier::opaque]
pub open spec fn value_sized(v: ValueModel) -> bool
    decreases v,
{
    match v {
        ValueModel::Str(s) => encode_utf8(s).len() <= u64::MAX,
        ValueModel::Bytes(b) => b.len() <= u64::MAX,
        ValueModel::List(items) => items.len() <= u64::MAX && forall|i: int|
            0 <= i < items.len() ==> value_sized(#[trigger] items[i]),
        _ => true,
    }
}

/// Whether lists in `v` nest at most `levels` deep.
#[verifier::opaque]
pub open spec fn nested_within(v: ValueModel, levels: nat) -> bool
    decreases v,
{
    match v {
        ValueModel::List(items) => levels > 0 && forall|i: int|
            0 <= i < items.len() ==> nested_within(#[trigger] items[i], (levels - 1) as nat),
        _ => true,
    }
}

/// The value that starts `s`, with lists at most `levels` deep, and how many
/// bytes it takes.
#[verifier::opaque]
pub open spec fn value_at(s: Seq<u8>, levels: nat) -> Option<(ValueModel, nat)>
    decreases levels, 0nat,
{
    if s.len() == 0 {
        None
    } else {
        let body = s.drop_first();
        if s[0] == TAG_NULL {
            Some((ValueModel::Null, 1))
        } else if s[0] == TAG_BOOL {
            if body.len() == 0 || body[0] > 1 {
                None
            } else {
                Some((ValueModel::Bool(body[0] == 1), 2))
            }
        } else if s[0] == TAG_I64 || s[0] == TAG_U64 || s[0] == TAG_F64 {
            if body.len() < 8 {
                None
            } else {
                let n = spec_u64_from_le_bytes(body.take(8));
                if s[0] == TAG_I64 {
                    Some((ValueModel::I64(n as i64), 9))
                } else if s[0] == TAG_U64 {
                    Some((ValueModel::U64(n), 9))
                } else {
                    Some((ValueModel::F64(n), 9))
                }
            }
        } else if s[0] == TAG_STR {
            match text_at(body) {
                Ok((t, k)) => Some((ValueModel::Str(t), k + 1)),
                Err(_) => None,
            }
        } else if s[0] == TAG_BYTES {
            match varint_at(body) {
                Some((n, k)) if k + n <= body.len() => Some(
                    (ValueModel::Bytes(body.subrange(k as int, (k + n) as int)), k + n + 1),
                ),
                _ => None,
            }
        } else if s[0] == TAG_LIST && levels > 0 {
            match varint_at(body) {
                Some((n, k)) => match values_at(body.skip(k as int), n, (levels - 1) as nat) {
                    Some((items, used)) => Some((ValueModel::List(items), 1 + k + used)),
                    None => None,
                },
                None => None,
            }
        } else {
            None
        }
    }
}

/// The first `n` values of `s` and how many bytes they take.
#[verifier::opaque]
pub open spec fn values_at(s: Seq<u8>, n: nat, levels: nat) -> Option<(Seq<ValueModel>, nat)>
    decreases levels, n + 1,
{
    if n == 0 {
        Some((Seq::empty(), 0))
    } else {
        match value_at(s, levels) {
            Some((first, k)) => match values_at(s.skip(k as int), (n - 1) as nat, levels) {
                Some((others, used)) => Some((seq![first] + others, k + used)),
                None => None,
            },
            None => None,
        }
    }
}

proof fn lemma_i64_bits(n: i64, bits: u64)
    ensures
        (n as u64) as i64 == n,
        (bits as i64) as u64 == bits,
{
    assert((n as u64) as i64 == n) by (bit_vector);
    assert((bits as i64) as u64 == bits) by (bit_vector);
}

/// A written value reads back as itself, whatever follows it.
pub proof fn lemma_value_round_trip(v: ValueModel, levels: nat, rest: Seq<u8>)
    requires
        value_sized(v),
        nested_within(v, levels),
    ensures
        value_at(value_bytes(v) + rest, levels) == Some((v, value_bytes(v).len())),
        value_bytes(v).len() > 0,
    decreases v,
{
    reveal(value_at);
    reveal(values_at);
    reveal(value_bytes);
    reveal(values_bytes);
    reveal(value_sized);
    reveal(nested_within);
    let s = value_bytes(v) + rest;
    let body = s.drop_first();
    lemma_auto_spec_u64_to_from_le_bytes();
    match v {
        ValueModel::I64(n) => {
            lemma_i64_bits(n, 0);
            assert(body.take(8) =~= spec_u64_to_le_bytes(n as u64));
        },
        ValueModel::U64(n) => {
            assert(body.take(8) =~= spec_u64_to_le_bytes(n));
        },
        ValueModel::F64(n) => {
            assert(body.take(8) =~= spec_u64_to_le_bytes(n));
        },
        ValueModel::Str(t) => {
            assert(body =~= text_bytes(t) + rest);
            lemma_text_round_trip(t, rest);
        },
        ValueModel::Bytes(b) => {
            let k = varint_bytes(b.len()).len();
            assert(body =~= varint_bytes(b.len()) + (b + rest));
            lemma_varint_round_trip(b.len(), b + rest);
            assert(body.subrange(k as int, (k + b.len()) as int) =~= b);
        },
        ValueModel::List(items) => {
            let k = varint_bytes(items.len()).len();
            assert(body =~= varint_bytes(items.len()) + (values_bytes(items) + rest));
            lemma_varint_round_trip(items.len(), values_bytes(items) + rest);
            assert(body.skip(k as int) =~= values_bytes(items) + rest);
            lemma_values_round_trip(items, (levels - 1) as nat, rest);
        },
        _ => {},
    }
}

/// Written values read back as themselves.
pub proof fn lemma_values_round_trip(items: Seq<ValueModel>, levels: nat, rest: Seq<u8>)
    requires
        forall|i: int| 0 <= i < items.len() ==> value_sized(#[trigger] items[i]),
        forall|i: int| 0 <= i < items.len() ==> nested_within(#[trigger] items[i], levels),
    ensures
        values_at(values_bytes(items) + rest, items.len(), levels) == Some(
            (items, values_bytes(items).len()),
        ),
    decreases items,
{
    reveal(value_at);
    reveal(values_at);
    reveal(value_bytes);
    reveal(values_bytes);
    if items.len() > 0 {
        let others = items.drop_first();
        let s = values_bytes(items) + rest;
        assert(s =~= value_bytes(items[0]) + (values_bytes(others) + rest));
        lemma_value_round_trip(items[0], levels, values_bytes(others) + rest);
        assert(s.skip(value_bytes(items[0]).len() as int) =~= values_bytes(others) + rest);
        lemma_values_round_trip(others, levels, rest);
        assert(seq![items[0]] + others =~= items);
    } else {
        assert(items =~= Seq::empty());
    }
}

/// A value that reads is the one whose written form is there.
pub proof fn lemma_value_canonical(s: Seq<u8>, levels: nat)
    ensures
        value_at(s, levels) matches Some((v, k)) ==> 0 < k <= s.len() && s.take(k as int)
            == value_bytes(v) && value_sized(v) && nested_within(v, levels),
    decreases levels, 0nat,
{
    reveal(value_at);
    reveal(values_at);
    reveal(value_bytes);
    reveal(values_bytes);
    reveal(value_sized);
    reveal(nested_within);
    if s.len() > 0 {
        let body = s.drop_first();
        lemma_auto_spec_u64_to_from_le_bytes();
        if s[0] == TAG_NULL {
            assert(s.take(1) =~= seq![TAG_NULL]);
        } else if s[0] == TAG_BOOL {
            if body.len() > 0 && body[0] <= 1 {
                assert(s.take(2) =~= seq![TAG_BOOL, body[0]]);
            }
        } else if s[0] == TAG_I64 || s[0] == TAG_U64 || s[0] == TAG_F64 {
            if body.len() >= 8 {
                let n = spec_u64_from_le_bytes(body.take(8));
                lemma_i64_bits(0, n);
                assert(spec_u64_to_le_bytes(n) == body.take(8));
                assert(s.take(9) =~= seq![s[0]] + body.take(8));
            }
        } else if s[0] == TAG_STR {
            lemma_text_canonical(body);
            match text_at(body) {
                Ok((t, k)) => {
                    assert(s.take((k + 1) as int) =~= seq![s[0]] + body.take(k as int));
                },
                Err(_) => {},
            }
        } else if s[0] == TAG_BYTES {
            lemma_varint_canonical(body);
            match varint_at(body) {
                Some((n, k)) if k + n <= body.len() => {
                    let b = body.subrange(k as int, (k + n) as int);
                    assert(s.take((k + n + 1) as int) =~= seq![s[0]] + body.take(k as int) + b);
                },
                _ => {},
            }
        } else if s[0] == TAG_LIST && levels > 0 {
            lemma_varint_canonical(body);
            match varint_at(body) {
                Some((n, k)) => {
                    let tail = body.skip(k as int);
                    lemma_values_canonical(tail, n, (levels - 1) as nat);
                    match values_at(tail, n, (levels - 1) as nat) {
                        Some((items, used)) => {
                            assert(s.take((1 + k + used) as int) =~= seq![s[0]] + body.take(k as int)
                                + tail.take(used as int));
                        },
                        None => {},
                    }
                },
                None => {},
            }
        }
    }
}

/// Values that read are those whose written forms are there.
pub proof fn lemma_values_canonical(s: Seq<u8>, n: nat, levels: nat)
    ensures
        values_at(s, n, levels) matches Some((items, used)) ==> used <= s.len() && s.take(
            used as int,
        ) == values_bytes(items) && items.len() == n && forall|i: int|
            0 <= i < items.len() ==> value_sized(#[trigger] items[i]) && nested_within(
                items[i],
                levels,
            ),
    decreases levels, n + 1,
{
    reveal(value_at);
    reveal(values_at);
    reveal(value_bytes);
    reveal(values_bytes);
    if n == 0 {
        assert(s.take(0) =~= Seq::empty());
    } else {
        lemma_value_canonical(s, levels);
        match value_at(s, levels) {
            Some((first, k)) => {
                let tail = s.skip(k as int);
                lemma_values_canonical(tail, (n - 1) as nat, levels);
                match values_at(tail, (n - 1) as nat, levels) {
                    Some((others, used)) => {
                        let items = seq![first] + others;
                        assert(items.drop_first() =~= others);
                        assert(s.take((k + used) as int) =~= s.take(k as int) + tail.take(
                            used as int,
                        ));
                        assert forall|i: int| 0 <= i < items.len() implies value_sized(
                            #[trigger] items[i],
                        ) && nested_within(items[i], levels) by {
                            if i > 0 {
                                assert(items[i] == others[i - 1]);
                            }
                        }
                    },
                    None => {},
                }
            },
            None => {},
        }
    }
}

proof fn lemma_deeper(v: ValueModel, less: nat, more: nat)
    requires
        nested_within(v, less),
        less <= more,
    ensures
        nested_within(v, more),
    decreases v,
{
    reveal(nested_within);
    if let ValueModel::List(items) = v {
        assert forall|i: int| 0 <= i < items.len() implies nested_within(
            #[trigger] items[i],
            (more - 1) as nat,
        ) by {
            lemma_deeper(items[i], (less - 1) as nat, (more - 1) as nat);
        }
    }
}

/// How deep a value's lists nest: of a list, the first `k` of its items.
proof fn lemma_levels(v: ValueModel, k: nat) -> (n: nat)
    ensures
        v matches ValueModel::List(items) ==> forall|i: int|
            0 <= i < items.len() && i < k ==> nested_within(#[trigger] items[i], n),
        v is List || nested_within(v, n),
    decreases v, k,
{
    reveal(nested_within);
    match v {
        ValueModel::List(items) => if k == 0 || k > items.len() {
            if k == 0 {
                0
            } else {
                lemma_levels(v, (k - 1) as nat)
            }
        } else {
            let before = lemma_levels(v, (k - 1) as nat);
            let x = items[k - 1];
            let inner = lemma_levels(
                x,
                if let ValueModel::List(its) = x {
                    its.len()
                } else {
                    0
                },
            );
            let n = before + inner + 1;
            assert(nested_within(x, inner + 1));
            assert forall|i: int| 0 <= i < items.len() && i < k implies nested_within(
                #[trigger] items[i],
                n,
            ) by {
                if i == k - 1 {
                    lemma_deeper(x, inner + 1, n);
                } else {
                    lemma_deeper(items[i], before, n);
                }
            }
            n
        },
        _ => 0,
    }
}

/// A written value reads back as itself, or, where its lists nest too deep, not at all.
pub proof fn lemma_value_or_none(v: ValueModel, levels: nat, rest: Seq<u8>)
    requires
        value_sized(v),
    ensures
        value_at(value_bytes(v) + rest, levels) matches Some((w, k)) ==> w == v && k == value_bytes(
            v,
        ).len(),
{
    let s = value_bytes(v) + rest;
    if let Some((w, k)) = value_at(s, levels) {
        lemma_value_canonical(s, levels);
        let n = lemma_levels(
            v,
            if let ValueModel::List(items) = v {
                items.len()
            } else {
                0
            },
        );
        let most = n + levels + 1;
        assert(nested_within(v, n + 1)) by {
            reveal(nested_within);
        }
        lemma_deeper(v, n + 1, most);
        lemma_deeper(w, levels, most);
        lemma_value_round_trip(v, most, rest);
        lemma_value_round_trip(w, most, s.skip(k as int));
        assert(value_bytes(w) + s.skip(k as int) =~= s);
    }
}

/// Append a value.
pub fn encode_value(v: &Value, out: &mut Vec<u8>)
    ensures
        final(out)@ == old(out)@ + value_bytes(v.model()),
        value_sized(v.model()),
    decreases v,
{
    reveal(value_bytes);
    reveal(values_bytes);
    reveal(value_sized);
    match v {
        Value::Null => {
            out.push(TAG_NULL);
        },
        Value::Bool(b) => {
            out.push(TAG_BOOL);
            out.push(if *b { 1u8 } else { 0u8 });
            assert(out@ =~= old(out)@ + value_bytes(v.model()));
        },
        Value::I64(n) => {
            out.push(TAG_I64);
            put_bytes(u64_to_le_bytes(*n as u64).as_slice(), out);
            assert(out@ =~= old(out)@ + value_bytes(v.model()));
        },
        Value::U64(n) => {
            out.push(TAG_U64);
            put_bytes(u64_to_le_bytes(*n).as_slice(), out);
            assert(out@ =~= old(out)@ + value_bytes(v.model()));
        },
        Value::F64(bits) => {
            out.push(TAG_F64);
            put_bytes(u64_to_le_bytes(*bits).as_slice(), out);
            assert(out@ =~= old(out)@ + value_bytes(v.model()));
        },
        Value::Str(s) => {
            out.push(TAG_STR);
            put_text(s.as_str(), out);
            assert(out@ =~= old(out)@ + value_bytes(v.model()));
        },
        Value::Bytes(b) => {
            out.push(TAG_BYTES);
            write_u64(b.len() as u64, out);
            put_bytes(b.as_slice(), out);
            assert(out@ =~= old(out)@ + value_bytes(v.model()));
        },
        Value::List(items) => {
            out.push(TAG_LIST);
            write_u64(items.len() as u64, out);
            let ghost all = v.model()->List_0;
            let ghost head = out@;
            assert(head =~= old(out)@ + (seq![TAG_LIST] + varint_bytes(all.len())));
            assert(all.skip(0) =~= all);
            let mut i: usize = 0;
            while i < items.len()
                invariant
                    i <= items.len(),
                    *v == Value::List(*items),
                    all == v.model()->List_0,
                    out@ + values_bytes(all.skip(i as int)) == head + values_bytes(all),
                    forall|k: int| 0 <= k < i ==> value_sized(#[trigger] all[k]),
                decreases items.len() - i,
            {
                reveal(value_bytes);
                reveal(values_bytes);
                reveal(value_sized);
                assert(decreases_to!(v => v->List_0));
                let ghost before = out@;
                assert(all[i as int] == items@[i as int].model());
                encode_value(&items[i], out);
                assert(all.skip(i as int).drop_first() =~= all.skip(i + 1));
                assert(out@ + values_bytes(all.skip(i + 1)) =~= before + values_bytes(
                    all.skip(i as int),
                ));
                i += 1;
            }
            assert(all.skip(i as int) =~= Seq::empty());
            assert(out@ + Seq::<u8>::empty() =~= out@);
            assert(out@ =~= old(out)@ + value_bytes(v.model()));
        },
    }
}

fn read_fixed(buf: &[u8], pos: usize) -> (r: Option<u64>)
    requires
        pos <= buf@.len(),
    ensures
        r is Some <==> buf@.len() - pos >= 8,
        r matches Some(n) ==> n == spec_u64_from_le_bytes(buf@.skip(pos as int).take(8)),
{
    if buf.len() - pos < 8 {
        return None;
    }
    assert(buf@.subrange(pos as int, pos + 8) =~= buf@.skip(pos as int).take(8));
    Some(u64_from_le_bytes(slice_subrange(buf, pos, pos + 8)))
}

fn read_value(buf: &[u8], pos: usize, levels: u8) -> (r: Option<(Value, usize)>)
    requires
        pos <= buf@.len(),
    ensures
        match value_at(buf@.skip(pos as int), levels as nat) {
            Some((v, k)) => r matches Some((w, end)) && w.model() == v && end == pos + k && end
                <= buf@.len(),
            None => r is None,
        },
    decreases levels, 0int,
{
    reveal(value_at);
    reveal(values_at);
    let ghost s = buf@.skip(pos as int);
    proof {
        lemma_value_canonical(s, levels as nat);
    }
    if pos >= buf.len() {
        return None;
    }
    let tag = buf[pos];
    let at: usize = pos + 1;
    let ghost body = s.drop_first();
    proof {
        lemma_varint_canonical(body);
    }
    assert(body =~= buf@.skip(at as int));
    if tag == TAG_NULL {
        Some((Value::Null, at))
    } else if tag == TAG_BOOL {
        if at >= buf.len() || buf[at] > 1 {
            None
        } else {
            Some((Value::Bool(buf[at] == 1), at + 1))
        }
    } else if tag == TAG_I64 || tag == TAG_U64 || tag == TAG_F64 {
        match read_fixed(buf, at) {
            None => None,
            Some(n) => {
                if tag == TAG_I64 {
                    Some((Value::I64(n as i64), at + 8))
                } else if tag == TAG_U64 {
                    Some((Value::U64(n), at + 8))
                } else {
                    Some((Value::F64(n), at + 8))
                }
            },
        }
    } else if tag == TAG_STR {
        match read_text(buf, at) {
            Ok((t, end)) => Some((Value::Str(t), end)),
            Err(_) => None,
        }
    } else if tag == TAG_BYTES {
        match read_u64(buf, at) {
            None => None,
            Some((n, start)) => {
                if n > (buf.len() - start) as u64 {
                    return None;
                }
                let end: usize = start + n as usize;
                let raw = slice_to_vec(slice_subrange(buf, start, end));
                assert(raw@ =~= body.subrange(start - at, end - at));
                Some((Value::Bytes(raw), end))
            },
        }
    } else if tag == TAG_LIST && levels > 0 {
        match read_u64(buf, at) {
            None => None,
            Some((n, start)) => {
                let ghost tail = body.skip(start - at);
                assert(tail =~= buf@.skip(start as int));
                match read_values(buf, start, n, levels - 1) {
                    None => None,
                    Some((items, end)) => {
                        let v = Value::List(items);
                        assert(v.model()->List_0 =~= crate::value::models(items@));
                        Some((v, end))
                    },
                }
            },
        }
    } else {
        None
    }
}

fn read_values(buf: &[u8], pos: usize, n: u64, levels: u8) -> (r: Option<(Vec<Value>, usize)>)
    requires
        pos <= buf@.len(),
    ensures
        match values_at(buf@.skip(pos as int), n as nat, levels as nat) {
            Some((items, used)) => r matches Some((out, end)) && crate::value::models(out@) == items
                && end == pos + used && end <= buf@.len(),
            None => r is None,
        },
    decreases levels, n + 1,
{
    reveal(value_at);
    reveal(values_at);
    let mut out: Vec<Value> = Vec::new();
    let mut at: usize = pos;
    let mut left: u64 = n;
    let ghost s = buf@.skip(pos as int);
    let ghost total = values_at(s, n as nat, levels as nat);
    while left > 0
        invariant
            pos <= at <= buf@.len(),
            left <= n,
            total == values_at(buf@.skip(pos as int), n as nat, levels as nat),
            match values_at(buf@.skip(at as int), left as nat, levels as nat) {
                Some((items, used)) => total == Some(
                    (crate::value::models(out@) + items, (at - pos + used) as nat),
                ),
                None => total is None,
            },
        decreases left,
    {
        reveal(value_at);
        reveal(values_at);
        let ghost here = buf@.skip(at as int);
        match read_value(buf, at, levels) {
            None => {
                return None;
            },
            Some((v, end)) => {
                let ghost k = (end - at) as nat;
                assert(here.skip(k as int) =~= buf@.skip(end as int));
                proof {
                    match values_at(buf@.skip(end as int), (left - 1) as nat, levels as nat) {
                        Some((others, used)) => {
                            assert(crate::value::models(out@.push(v)) =~= crate::value::models(
                                out@,
                            ).push(v.model()));
                            assert(crate::value::models(out@) + (seq![v.model()] + others)
                                =~= crate::value::models(out@.push(v)) + others);
                        },
                        None => {},
                    }
                }
                out.push(v);
                at = end;
                left -= 1;
            },
        }
    }
    assert(crate::value::models(out@) + Seq::empty() =~= crate::value::models(out@));
    Some((out, at))
}

/// The value at `pos` and the position behind it.
pub fn decode_value(buf: &[u8], pos: usize) -> (r: Option<(Value, usize)>)
    requires
        pos <= buf@.len(),
    ensures
        match value_at(buf@.skip(pos as int), MAX_NESTING as nat) {
            Some((v, k)) => r matches Some((w, end)) && w.model() == v && end == pos + k && end
                <= buf@.len(),
            None => r is None,
        },
{
    read_value(buf, pos, MAX_NESTING)
}

} // verus!
