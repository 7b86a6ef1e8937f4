//! A byte form for conditions.
//!
//! One tag byte per node, then the node's operands. Nesting is bounded by
//! [`MAX_DEPTH`] on the way in and on the way out: the decoder may be handed
//! bytes that no encoder wrote.

use vstd::prelude::*;
use vstd::slice::*;
use vstd::string::*;
use vstd::utf8::*;
use crate::error::{Error, ErrorModel};
use crate::expr::{expr_models, ArithOp, CmpOp, Expr, ExprModel};
use crate::text::{dec_text, push_dec};
use crate::wire::{
    bad_text_said, decode_value, encode_value, lemma_text_canonical, lemma_text_round_trip,
    lemma_value_canonical, lemma_value_round_trip, lemma_varint_canonical,
    lemma_varint_round_trip, nested_within, put_text, read_text, read_u64, text_at, text_bytes,
    value_at, value_bytes, value_sized, varint_at, varint_bytes, write_u64, BadText, TextFault,
    MAX_NESTING,
};

verus! {

/// Deepest expression that will encode or decode.
pub const MAX_DEPTH: u32 = 32;

pub const LITERAL: u8 = 1;

pub const FIELD: u8 = 2;

pub const COMPARE: u8 = 3;

pub const AND: u8 = 4;

pub const OR: u8 = 5;

pub const NOT: u8 = 6;

pub const IS_NULL: u8 = 7;

pub const IS_NOT_NULL: u8 = 8;

pub const ARITH: u8 = 9;

pub const IN: u8 = 10;

pub const LIKE: u8 = 11;

/// How many levels of nodes [`MAX_DEPTH`] admits: depth zero counts.
pub open spec fn levels_allowed() -> nat {
    (MAX_DEPTH + 1) as nat
}

// -- operators ---------------------------------------------------------------

pub open spec fn compare_code(op: CmpOp) -> u8 {
    match op {
        CmpOp::Eq => 0,
        CmpOp::Ne => 1,
        CmpOp::Lt => 2,
        CmpOp::Le => 3,
        CmpOp::Gt => 4,
        CmpOp::Ge => 5,
    }
}

pub open spec fn compare_of(b: u8) -> Option<CmpOp> {
    if b == 0 {
        Some(CmpOp::Eq)
    } else if b == 1 {
        Some(CmpOp::Ne)
    } else if b == 2 {
        Some(CmpOp::Lt)
    } else if b == 3 {
        Some(CmpOp::Le)
    } else if b == 4 {
        Some(CmpOp::Gt)
    } else if b == 5 {
        Some(CmpOp::Ge)
    } else {
        None
    }
}

pub open spec fn arith_code(op: ArithOp) -> u8 {
    match op {
        ArithOp::Add => 0,
        ArithOp::Sub => 1,
        ArithOp::Mul => 2,
        ArithOp::Div => 3,
    }
}

pub open spec fn arith_of(b: u8) -> Option<ArithOp> {
    if b == 0 {
        Some(ArithOp::Add)
    } else if b == 1 {
        Some(ArithOp::Sub)
    } else if b == 2 {
        Some(ArithOp::Mul)
    } else if b == 3 {
        Some(ArithOp::Div)
    } else {
        None
    }
}

fn compare_bits(op: CmpOp) -> (b: u8)
    ensures
        b == compare_code(op),
{
    match op {
        CmpOp::Eq => 0,
        CmpOp::Ne => 1,
        CmpOp::Lt => 2,
        CmpOp::Le => 3,
        CmpOp::Gt => 4,
        CmpOp::Ge => 5,
    }
}

fn compare_from(b: u8) -> (op: Option<CmpOp>)
    ensures
        op == compare_of(b),
{
    match b {
        0 => Some(CmpOp::Eq),
        1 => Some(CmpOp::Ne),
        2 => Some(CmpOp::Lt),
        3 => Some(CmpOp::Le),
        4 => Some(CmpOp::Gt),
        5 => Some(CmpOp::Ge),
        _ => None,
    }
}

fn arith_bits(op: ArithOp) -> (b: u8)
    ensures
        b == arith_code(op),
{
    match op {
        ArithOp::Add => 0,
        ArithOp::Sub => 1,
        ArithOp::Mul => 2,
        ArithOp::Div => 3,
    }
}

fn arith_from(b: u8) -> (op: Option<ArithOp>)
    ensures
        op == arith_of(b),
{
    match b {
        0 => Some(ArithOp::Add),
        1 => Some(ArithOp::Sub),
        2 => Some(ArithOp::Mul),
        3 => Some(ArithOp::Div),
        _ => None,
    }
}

// -- the written form --------------------------------------------------------

/// An expression as bytes.
pub open spec fn expr_bytes(e: ExprModel) -> Seq<u8>
    decreases e,
{
    match e {
        ExprModel::Literal(v) => seq![LITERAL] + value_bytes(v),
        ExprModel::Field(name) => seq![FIELD] + text_bytes(name),
        ExprModel::Compare { op, lhs, rhs } => seq![COMPARE, compare_code(op)] + (expr_bytes(*lhs)
            + expr_bytes(*rhs)),
        ExprModel::And(parts) => seq![AND] + (varint_bytes(parts.len()) + exprs_bytes(parts)),
        ExprModel::Or(parts) => seq![OR] + (varint_bytes(parts.len()) + exprs_bytes(parts)),
        ExprModel::Not(inner) => seq![NOT] + expr_bytes(*inner),
        ExprModel::IsNull(inner) => seq![IS_NULL] + expr_bytes(*inner),
        ExprModel::IsNotNull(inner) => seq![IS_NOT_NULL] + expr_bytes(*inner),
        ExprModel::Arith { op, lhs, rhs } => seq![ARITH, arith_code(op)] + (expr_bytes(*lhs)
            + expr_bytes(*rhs)),
        ExprModel::In { needle, list } => seq![IN] + (expr_bytes(*needle) + (varint_bytes(
            list.len(),
        ) + exprs_bytes(list))),
        ExprModel::Like { text, pattern } => seq![LIKE] + (expr_bytes(*text) + text_bytes(pattern)),
    }
}

/// Expressions one after the other.
pub open spec fn exprs_bytes(parts: Seq<ExprModel>) -> Seq<u8>
    decreases parts,
{
    if parts.len() == 0 {
        Seq::empty()
    } else {
        expr_bytes(parts[0]) + exprs_bytes(parts.drop_first())
    }
}

/// Whether `e` has at most `levels` levels of nodes.
pub open spec fn within(e: ExprModel, levels: nat) -> bool
    decreases e,
{
    levels > 0 && {
        let below = (levels - 1) as nat;
        match e {
            ExprModel::Literal(_) => true,
            ExprModel::Field(_) => true,
            ExprModel::Compare { op, lhs, rhs } => within(*lhs, below) && within(*rhs, below),
            ExprModel::And(parts) => forall|i: int|
                0 <= i < parts.len() ==> within(#[trigger] parts[i], below),
            ExprModel::Or(parts) => forall|i: int|
                0 <= i < parts.len() ==> within(#[trigger] parts[i], below),
            ExprModel::Not(inner) => within(*inner, below),
            ExprModel::IsNull(inner) => within(*inner, below),
            ExprModel::IsNotNull(inner) => within(*inner, below),
            ExprModel::Arith { op, lhs, rhs } => within(*lhs, below) && within(*rhs, below),
            ExprModel::In { needle, list } => within(*needle, below) && forall|i: int|
                0 <= i < list.len() ==> within(#[trigger] list[i], below),
            ExprModel::Like { text, pattern } => within(*text, below),
        }
    }
}

/// Whether every length in `e` fits a written length.
pub open spec fn expr_sized(e: ExprModel) -> bool
    decreases e,
{
    match e {
        ExprModel::Literal(v) => value_sized(v),
        ExprModel::Field(name) => encode_utf8(name).len() <= u64::MAX,
        ExprModel::Compare { op, lhs, rhs } => expr_sized(*lhs) && expr_sized(*rhs),
        ExprModel::And(parts) => parts.len() <= u64::MAX && forall|i: int|
            0 <= i < parts.len() ==> expr_sized(#[trigger] parts[i]),
        ExprModel::Or(parts) => parts.len() <= u64::MAX && forall|i: int|
            0 <= i < parts.len() ==> expr_sized(#[trigger] parts[i]),
        ExprModel::Not(inner) => expr_sized(*inner),
        ExprModel::IsNull(inner) => expr_sized(*inner),
        ExprModel::IsNotNull(inner) => expr_sized(*inner),
        ExprModel::Arith { op, lhs, rhs } => expr_sized(*lhs) && expr_sized(*rhs),
        ExprModel::In { needle, list } => expr_sized(*needle) && list.len() <= u64::MAX && forall|
            i: int,
        |
            0 <= i < list.len() ==> expr_sized(#[trigger] list[i]),
        ExprModel::Like { text, pattern } => expr_sized(*text) && encode_utf8(pattern).len()
            <= u64::MAX,
    }
}

/// Whether no literal in `e` nests lists deeper than a value may and still read
/// back.
pub open spec fn literals_shallow(e: ExprModel) -> bool
    decreases e,
{
    match e {
        ExprModel::Literal(v) => nested_within(v, MAX_NESTING as nat),
        ExprModel::Field(_) => true,
        ExprModel::Compare { op, lhs, rhs } => literals_shallow(*lhs) && literals_shallow(*rhs),
        ExprModel::And(parts) => forall|i: int|
            0 <= i < parts.len() ==> literals_shallow(#[trigger] parts[i]),
        ExprModel::Or(parts) => forall|i: int|
            0 <= i < parts.len() ==> literals_shallow(#[trigger] parts[i]),
        ExprModel::Not(inner) => literals_shallow(*inner),
        ExprModel::IsNull(inner) => literals_shallow(*inner),
        ExprModel::IsNotNull(inner) => literals_shallow(*inner),
        ExprModel::Arith { op, lhs, rhs } => literals_shallow(*lhs) && literals_shallow(*rhs),
        ExprModel::In { needle, list } => literals_shallow(*needle) && forall|i: int|
            0 <= i < list.len() ==> literals_shallow(#[trigger] list[i]),
        ExprModel::Like { text, pattern } => literals_shallow(*text),
    }
}

// -- what can be wrong -------------------------------------------------------

/// Why bytes are not a condition.
#[derive(Clone, Copy, Debug, PartialEq, Eq, Structural)]
pub enum Fault {
    TooDeep,
    Truncated,
    TruncatedLength,
    TruncatedName,
    InvalidUtf8(BadText),
    MalformedValue,
    UnknownTag(u8),
    UnknownCompare(u8),
    UnknownArith(u8),
    /// More operands declared than bytes remain.
    TooManyOperands { declared: u64, left: u64 },
    /// More list items declared than bytes remain.
    TooManyItems { declared: u64, left: u64 },
    Trailing(u64),
    OddDigits,
    NotHex,
}

/// What is said of a fault.
pub open spec fn fault_text(f: Fault) -> Seq<char> {
    match f {
        Fault::TooDeep => "condition nested deeper than "@ + dec_text(MAX_DEPTH as nat),
        Fault::Truncated => "condition truncated"@,
        Fault::TruncatedLength => "condition truncated in a length"@,
        Fault::TruncatedName => "condition truncated in a name"@,
        Fault::InvalidUtf8(b) => "invalid utf-8 in condition: "@ + bad_text_said(b),
        Fault::MalformedValue => "malformed value in condition"@,
        Fault::UnknownTag(b) => "unknown expression tag "@ + dec_text(b as nat),
        Fault::UnknownCompare(b) => "unknown comparison op "@ + dec_text(b as nat),
        Fault::UnknownArith(b) => "unknown arithmetic op "@ + dec_text(b as nat),
        Fault::TooManyOperands { declared, left } => "condition declares "@ + dec_text(
            declared as nat,
        ) + " operands but only "@ + dec_text(left as nat) + " bytes remain"@,
        Fault::TooManyItems { declared, left } => "condition declares "@ + dec_text(
            declared as nat,
        ) + " list items but only "@ + dec_text(left as nat) + " bytes remain"@,
        Fault::Trailing(n) => "condition has "@ + dec_text(n as nat) + " trailing bytes"@,
        Fault::OddDigits => "condition hex has an odd number of digits"@,
        Fault::NotHex => "condition hex has a non-hex digit"@,
    }
}

fn remain_message(declared: u64, what: &str, left: u64) -> (s: String)
    ensures
        s@ == "condition declares "@ + dec_text(declared as nat) + what@ + dec_text(left as nat)
            + " bytes remain"@,
{
    let mut s = "condition declares ".to_owned();
    push_dec(&mut s, declared);
    s.append(what);
    push_dec(&mut s, left);
    s.append(" bytes remain");
    s
}

fn numbered(head: &str, n: u64) -> (s: String)
    ensures
        s@ == head@ + dec_text(n as nat),
{
    let mut s = head.to_owned();
    push_dec(&mut s, n);
    s
}

impl Fault {
    /// What is said of this fault.
    pub fn message(&self) -> (s: String)
        ensures
            s@ == fault_text(*self),
    {
        match self {
            Fault::TooDeep => numbered("condition nested deeper than ", MAX_DEPTH as u64),
            Fault::Truncated => "condition truncated".to_owned(),
            Fault::TruncatedLength => "condition truncated in a length".to_owned(),
            Fault::TruncatedName => "condition truncated in a name".to_owned(),
            Fault::InvalidUtf8(b) => b.said_after("invalid utf-8 in condition: "),
            Fault::MalformedValue => "malformed value in condition".to_owned(),
            Fault::UnknownTag(b) => numbered("unknown expression tag ", *b as u64),
            Fault::UnknownCompare(b) => numbered("unknown comparison op ", *b as u64),
            Fault::UnknownArith(b) => numbered("unknown arithmetic op ", *b as u64),
            Fault::TooManyOperands { declared, left } => remain_message(
                *declared,
                " operands but only ",
                *left,
            ),
            Fault::TooManyItems { declared, left } => remain_message(
                *declared,
                " list items but only ",
                *left,
            ),
            Fault::Trailing(n) => {
                let mut s = numbered("condition has ", *n);
                s.append(" trailing bytes");
                s
            },
            Fault::OddDigits => "condition hex has an odd number of digits".to_owned(),
            Fault::NotHex => "condition hex has a non-hex digit".to_owned(),
        }
    }
}

// -- encoding ----------------------------------------------------------------

fn put(e: &Expr, levels: u32, out: &mut Vec<u8>) -> (ok: bool)
    ensures
        ok == within(e.model(), levels as nat),
        ok ==> final(out)@ == old(out)@ + expr_bytes(e.model()) && expr_sized(e.model()),
    decreases e, 0int,
{
    if levels == 0 {
        return false;
    }
    let below: u32 = levels - 1;
    let ok = match e {
        Expr::Literal(v) => {
            out.push(LITERAL);
            encode_value(v, out);
            true
        },
        Expr::Field(name) => {
            out.push(FIELD);
            put_text(name.as_str(), out);
            true
        },
        Expr::Compare { op, lhs, rhs } => {
            out.push(COMPARE);
            out.push(compare_bits(*op));
            put(lhs, below, out) && put(rhs, below, out)
        },
        Expr::And(parts) => {
            out.push(AND);
            write_u64(parts.len() as u64, out);
            assert(decreases_to!(e => e->And_0));
            assert(e.model()->And_0 =~= expr_models(parts@));
            put_all(parts, below, out)
        },
        Expr::Or(parts) => {
            out.push(OR);
            write_u64(parts.len() as u64, out);
            assert(decreases_to!(e => e->Or_0));
            assert(e.model()->Or_0 =~= expr_models(parts@));
            put_all(parts, below, out)
        },
        Expr::Not(inner) => {
            out.push(NOT);
            put(inner, below, out)
        },
        Expr::IsNull(inner) => {
            out.push(IS_NULL);
            put(inner, below, out)
        },
        Expr::IsNotNull(inner) => {
            out.push(IS_NOT_NULL);
            put(inner, below, out)
        },
        Expr::Arith { op, lhs, rhs } => {
            out.push(ARITH);
            out.push(arith_bits(*op));
            put(lhs, below, out) && put(rhs, below, out)
        },
        Expr::In { needle, list } => {
            out.push(IN);
            assert(decreases_to!(e => e->list));
            assert(e.model()->list =~= expr_models(list@));
            if put(needle, below, out) {
                write_u64(list.len() as u64, out);
                put_all(list, below, out)
            } else {
                false
            }
        },
        Expr::Like { text, pattern } => {
            out.push(LIKE);
            if put(text, below, out) {
                put_text(pattern.as_str(), out);
                true
            } else {
                false
            }
        },
    };
    proof {
        if ok {
            assert(out@ =~= old(out)@ + expr_bytes(e.model()));
        }
    }
    ok
}

fn put_all(parts: &Vec<Expr>, levels: u32, out: &mut Vec<u8>) -> (ok: bool)
    ensures
        ok == (forall|i: int|
            0 <= i < parts@.len() ==> within(#[trigger] expr_models(parts@)[i], levels as nat)),
        ok ==> final(out)@ == old(out)@ + exprs_bytes(expr_models(parts@)),
        ok ==> (forall|i: int|
            0 <= i < parts@.len() ==> expr_sized(#[trigger] expr_models(parts@)[i])),
    decreases parts, 1int,
{
    let ghost all = expr_models(parts@);
    let ghost head = out@;
    assert(all.skip(0) =~= all);
    let mut i: usize = 0;
    while i < parts.len()
        invariant
            i <= parts.len(),
            all == expr_models(parts@),
            out@ + exprs_bytes(all.skip(i as int)) == head + exprs_bytes(all),
            forall|k: int| 0 <= k < i ==> within(#[trigger] all[k], levels as nat),
            forall|k: int| 0 <= k < i ==> expr_sized(#[trigger] all[k]),
        decreases parts.len() - i,
    {
        let ghost before = out@;
        assert(decreases_to!(parts@ => parts@[i as int]));
        if !put(&parts[i], levels, out) {
            assert(!within(all[i as int], levels as nat));
            return false;
        }
        assert(all.skip(i as int).drop_first() =~= all.skip(i + 1));
        assert(out@ + exprs_bytes(all.skip(i + 1)) =~= before + exprs_bytes(all.skip(i as int)));
        i += 1;
    }
    assert(all.skip(i as int) =~= Seq::empty());
    assert(out@ + Seq::<u8>::empty() =~= out@);
    true
}

/// Encode `e`. Fails exactly on nesting deeper than [`MAX_DEPTH`].
pub fn encode_expr(e: &Expr) -> (r: Result<Vec<u8>, Error>)
    ensures
        match r {
            Ok(bytes) => within(e.model(), levels_allowed()) && bytes@ == expr_bytes(e.model())
                && expr_sized(e.model()),
            Err(err) => !within(e.model(), levels_allowed()) && err@
                == ErrorModel::InvalidOptimization(fault_text(Fault::TooDeep)),
        },
{
    let mut out: Vec<u8> = Vec::new();
    if put(e, MAX_DEPTH + 1, &mut out) {
        assert(out@ =~= expr_bytes(e.model()));
        Ok(out)
    } else {
        Err(Error::InvalidOptimization(Fault::TooDeep.message()))
    }
}

// -- decoding ----------------------------------------------------------------

/// How text that does not read is reported.
pub open spec fn name_fault(f: TextFault) -> Fault {
    match f {
        TextFault::Length => Fault::TruncatedLength,
        TextFault::Short => Fault::TruncatedName,
        TextFault::Utf8(b) => Fault::InvalidUtf8(b),
    }
}

/// The expression that starts `s`, of at most `levels` levels, and how many
/// bytes it takes.
pub open spec fn expr_at(s: Seq<u8>, levels: nat) -> Result<(ExprModel, nat), Fault>
    decreases levels, 2nat, 0nat,
{
    if levels == 0 {
        Err(Fault::TooDeep)
    } else if s.len() == 0 {
        Err(Fault::Truncated)
    } else {
        match node_at(s[0], s.drop_first(), levels) {
            Ok((e, k)) => Ok((e, k + 1)),
            Err(f) => Err(f),
        }
    }
}

/// The node with tag `tag` whose operands start `body`.
pub open spec fn node_at(tag: u8, body: Seq<u8>, levels: nat) -> Result<(ExprModel, nat), Fault>
    decreases levels, 1nat, 0nat,
    when levels > 0
{
    if tag == LITERAL {
        match value_at(body, MAX_NESTING as nat) {
            Some((v, k)) => Ok((ExprModel::Literal(v), k)),
            None => Err(Fault::MalformedValue),
        }
    } else if tag == FIELD {
        match text_at(body) {
            Ok((t, k)) => Ok((ExprModel::Field(t), k)),
            Err(f) => Err(name_fault(f)),
        }
    } else if tag == COMPARE {
        if body.len() == 0 {
            Err(Fault::Truncated)
        } else {
            match compare_of(body[0]) {
                None => Err(Fault::UnknownCompare(body[0])),
                Some(op) => match pair_at(body.drop_first(), levels) {
                    Ok((lhs, rhs, k)) => Ok(
                        (
                            ExprModel::Compare { op, lhs: Box::new(lhs), rhs: Box::new(rhs) },
                            k + 1,
                        ),
                    ),
                    Err(f) => Err(f),
                },
            }
        }
    } else if tag == ARITH {
        if body.len() == 0 {
            Err(Fault::Truncated)
        } else {
            match arith_of(body[0]) {
                None => Err(Fault::UnknownArith(body[0])),
                Some(op) => match pair_at(body.drop_first(), levels) {
                    Ok((lhs, rhs, k)) => Ok(
                        (ExprModel::Arith { op, lhs: Box::new(lhs), rhs: Box::new(rhs) }, k + 1),
                    ),
                    Err(f) => Err(f),
                },
            }
        }
    } else if tag == AND {
        match group_at(body, levels, false) {
            Ok((parts, k)) => Ok((ExprModel::And(parts), k)),
            Err(f) => Err(f),
        }
    } else if tag == OR {
        match group_at(body, levels, false) {
            Ok((parts, k)) => Ok((ExprModel::Or(parts), k)),
            Err(f) => Err(f),
        }
    } else if tag == NOT {
        match expr_at(body, (levels - 1) as nat) {
            Ok((inner, k)) => Ok((ExprModel::Not(Box::new(inner)), k)),
            Err(f) => Err(f),
        }
    } else if tag == IS_NULL {
        match expr_at(body, (levels - 1) as nat) {
            Ok((inner, k)) => Ok((ExprModel::IsNull(Box::new(inner)), k)),
            Err(f) => Err(f),
        }
    } else if tag == IS_NOT_NULL {
        match expr_at(body, (levels - 1) as nat) {
            Ok((inner, k)) => Ok((ExprModel::IsNotNull(Box::new(inner)), k)),
            Err(f) => Err(f),
        }
    } else if tag == IN {
        match expr_at(body, (levels - 1) as nat) {
            Err(f) => Err(f),
            Ok((needle, j)) => match group_at(body.skip(j as int), levels, true) {
                Ok((list, k)) => Ok((ExprModel::In { needle: Box::new(needle), list }, j + k)),
                Err(f) => Err(f),
            },
        }
    } else if tag == LIKE {
        match expr_at(body, (levels - 1) as nat) {
            Err(f) => Err(f),
            Ok((text, j)) => match text_at(body.skip(j as int)) {
                Ok((pattern, k)) => Ok((ExprModel::Like { text: Box::new(text), pattern }, j + k)),
                Err(f) => Err(name_fault(f)),
            },
        }
    } else {
        Err(Fault::UnknownTag(tag))
    }
}

/// The two operands, one level down, that start `s`.
pub open spec fn pair_at(s: Seq<u8>, levels: nat) -> Result<(ExprModel, ExprModel, nat), Fault>
    decreases levels, 0nat, 0nat,
    when levels > 0
{
    match expr_at(s, (levels - 1) as nat) {
        Err(f) => Err(f),
        Ok((lhs, j)) => match expr_at(s.skip(j as int), (levels - 1) as nat) {
            Err(f) => Err(f),
            Ok((rhs, k)) => Ok((lhs, rhs, j + k)),
        },
    }
}

/// The counted operands, one level down, that start `s`. No more are declared
/// than bytes remain; `items` says which of the two complaints is made.
pub open spec fn group_at(s: Seq<u8>, levels: nat, items: bool) -> Result<
    (Seq<ExprModel>, nat),
    Fault,
>
    decreases levels, 0nat, 0nat,
    when levels > 0
{
    match varint_at(s) {
        None => Err(Fault::TruncatedLength),
        Some((n, k)) => if n > s.len() - k {
            if items {
                Err(Fault::TooManyItems { declared: n as u64, left: (s.len() - k) as u64 })
            } else {
                Err(Fault::TooManyOperands { declared: n as u64, left: (s.len() - k) as u64 })
            }
        } else {
            match exprs_at(s.skip(k as int), n, (levels - 1) as nat) {
                Ok((parts, used)) => Ok((parts, k + used)),
                Err(f) => Err(f),
            }
        },
    }
}

/// The first `n` expressions of `s` and how many bytes they take.
pub open spec fn exprs_at(s: Seq<u8>, n: nat, levels: nat) -> Result<(Seq<ExprModel>, nat), Fault>
    decreases levels, 3nat, n,
{
    if n == 0 {
        Ok((Seq::empty(), 0))
    } else {
        match expr_at(s, levels) {
            Err(f) => Err(f),
            Ok((first, k)) => match exprs_at(s.skip(k as int), (n - 1) as nat, levels) {
                Ok((others, used)) => Ok((seq![first] + others, k + used)),
                Err(f) => Err(f),
            },
        }
    }
}

/// What `bytes` decode to: one expression and nothing after it.
pub open spec fn decoded(bytes: Seq<u8>) -> Result<ExprModel, Fault> {
    match expr_at(bytes, levels_allowed()) {
        Err(f) => Err(f),
        Ok((e, k)) => if k != bytes.len() {
            Err(Fault::Trailing((bytes.len() - k) as u64))
        } else {
            Ok(e)
        },
    }
}

/// Whether `e` can be written in `levels` levels and read back.
pub open spec fn writable(e: ExprModel, levels: nat) -> bool {
    within(e, levels) && expr_sized(e) && literals_shallow(e)
}

/// Whether every one of `parts` is writable.
pub open spec fn all_writable(parts: Seq<ExprModel>, levels: nat) -> bool {
    forall|i: int| 0 <= i < parts.len() ==> writable(#[trigger] parts[i], levels)
}

#[verifier::rlimit(60)]
#[verifier::spinoff_prover]
proof fn lemma_expr_round_trip(e: ExprModel, levels: nat, rest: Seq<u8>)
    requires
        writable(e, levels),
    ensures
        expr_at(expr_bytes(e) + rest, levels) == Ok::<(ExprModel, nat), Fault>(
            (e, expr_bytes(e).len()),
        ),
        expr_bytes(e).len() > 0,
    decreases levels, 2nat, 0nat,
{
    let s = expr_bytes(e) + rest;
    let body = s.drop_first();
    let below = (levels - 1) as nat;
    match e {
        ExprModel::Literal(v) => {
            assert(body =~= value_bytes(v) + rest);
            lemma_value_round_trip(v, MAX_NESTING as nat, rest);
        },
        ExprModel::Field(name) => {
            assert(body =~= text_bytes(name) + rest);
            lemma_text_round_trip(name, rest);
        },
        ExprModel::Compare { op, lhs, rhs } => {
            assert(body.drop_first() =~= expr_bytes(*lhs) + (expr_bytes(*rhs) + rest));
            lemma_pair_round_trip(*lhs, *rhs, levels, rest);
        },
        ExprModel::Arith { op, lhs, rhs } => {
            assert(body.drop_first() =~= expr_bytes(*lhs) + (expr_bytes(*rhs) + rest));
            lemma_pair_round_trip(*lhs, *rhs, levels, rest);
        },
        ExprModel::And(parts) => {
            assert(body =~= varint_bytes(parts.len()) + (exprs_bytes(parts) + rest));
            lemma_group_round_trip(parts, levels, false, rest);
        },
        ExprModel::Or(parts) => {
            assert(body =~= varint_bytes(parts.len()) + (exprs_bytes(parts) + rest));
            lemma_group_round_trip(parts, levels, false, rest);
        },
        ExprModel::Not(inner) => {
            assert(body =~= expr_bytes(*inner) + rest);
            lemma_expr_round_trip(*inner, below, rest);
        },
        ExprModel::IsNull(inner) => {
            assert(body =~= expr_bytes(*inner) + rest);
            lemma_expr_round_trip(*inner, below, rest);
        },
        ExprModel::IsNotNull(inner) => {
            assert(body =~= expr_bytes(*inner) + rest);
            lemma_expr_round_trip(*inner, below, rest);
        },
        ExprModel::In { needle, list } => {
            let after = varint_bytes(list.len()) + (exprs_bytes(list) + rest);
            assert(body =~= expr_bytes(*needle) + after);
            lemma_expr_round_trip(*needle, below, after);
            assert(body.skip(expr_bytes(*needle).len() as int) =~= after);
            lemma_group_round_trip(list, levels, true, rest);
        },
        ExprModel::Like { text, pattern } => {
            let after = text_bytes(pattern) + rest;
            assert(body =~= expr_bytes(*text) + after);
            lemma_expr_round_trip(*text, below, after);
            assert(body.skip(expr_bytes(*text).len() as int) =~= after);
            lemma_text_round_trip(pattern, rest);
        },
    }
}

proof fn lemma_pair_round_trip(lhs: ExprModel, rhs: ExprModel, levels: nat, rest: Seq<u8>)
    requires
        levels > 0,
        writable(lhs, (levels - 1) as nat),
        writable(rhs, (levels - 1) as nat),
    ensures
        pair_at(expr_bytes(lhs) + (expr_bytes(rhs) + rest), levels) == Ok::<
            (ExprModel, ExprModel, nat),
            Fault,
        >((lhs, rhs, expr_bytes(lhs).len() + expr_bytes(rhs).len())),
    decreases levels, 0nat, 0nat,
{
    let below = (levels - 1) as nat;
    let s = expr_bytes(lhs) + (expr_bytes(rhs) + rest);
    lemma_expr_round_trip(lhs, below, expr_bytes(rhs) + rest);
    assert(s.skip(expr_bytes(lhs).len() as int) =~= expr_bytes(rhs) + rest);
    lemma_expr_round_trip(rhs, below, rest);
}

proof fn lemma_group_round_trip(parts: Seq<ExprModel>, levels: nat, items: bool, rest: Seq<u8>)
    requires
        levels > 0,
        parts.len() <= u64::MAX,
        all_writable(parts, (levels - 1) as nat),
    ensures
        group_at(varint_bytes(parts.len()) + (exprs_bytes(parts) + rest), levels, items) == Ok::<
            (Seq<ExprModel>, nat),
            Fault,
        >((parts, varint_bytes(parts.len()).len() + exprs_bytes(parts).len())),
    decreases levels, 0nat, 0nat,
{
    let k = varint_bytes(parts.len()).len();
    let tail = exprs_bytes(parts) + rest;
    lemma_varint_round_trip(parts.len(), tail);
    assert((varint_bytes(parts.len()) + tail).skip(k as int) =~= tail);
    lemma_parts_round_trip(parts, (levels - 1) as nat, rest);
}

proof fn lemma_parts_round_trip(parts: Seq<ExprModel>, levels: nat, rest: Seq<u8>)
    requires
        all_writable(parts, levels),
    ensures
        exprs_at(exprs_bytes(parts) + rest, parts.len(), levels) == Ok::<
            (Seq<ExprModel>, nat),
            Fault,
        >((parts, exprs_bytes(parts).len())),
        exprs_bytes(parts).len() >= parts.len(),
    decreases levels, 3nat, parts.len(),
{
    if parts.len() > 0 {
        let others = parts.drop_first();
        let s = exprs_bytes(parts) + rest;
        assert(s =~= expr_bytes(parts[0]) + (exprs_bytes(others) + rest));
        lemma_expr_round_trip(parts[0], levels, exprs_bytes(others) + rest);
        assert(s.skip(expr_bytes(parts[0]).len() as int) =~= exprs_bytes(others) + rest);
        lemma_parts_round_trip(others, levels, rest);
        assert(seq![parts[0]] + others =~= parts);
    } else {
        assert(parts =~= Seq::empty());
    }
}

proof fn lemma_expr_canonical(s: Seq<u8>, levels: nat)
    ensures
        expr_at(s, levels) matches Ok((e, k)) ==> 0 < k <= s.len() && s.take(k as int)
            == expr_bytes(e) && writable(e, levels),
    decreases levels, 2nat, 0nat,
{
    if levels > 0 && s.len() > 0 {
        let body = s.drop_first();
        lemma_node_canonical(s[0], body, levels);
        if let Ok((e, k)) = node_at(s[0], body, levels) {
            assert(s.take((k + 1) as int) =~= seq![s[0]] + body.take(k as int));
        }
    }
}

#[verifier::rlimit(60)]
#[verifier::spinoff_prover]
proof fn lemma_node_canonical(tag: u8, body: Seq<u8>, levels: nat)
    requires
        levels > 0,
    ensures
        node_at(tag, body, levels) matches Ok((e, k)) ==> k <= body.len() && seq![tag] + body.take(
            k as int,
        ) == expr_bytes(e) && writable(e, levels),
    decreases levels, 1nat, 0nat,
{
    let below = (levels - 1) as nat;
    if tag == LITERAL {
        lemma_value_canonical(body, MAX_NESTING as nat);
    } else if tag == FIELD {
        lemma_text_canonical(body);
    } else if tag == COMPARE || tag == ARITH {
        if body.len() > 0 {
            let tail = body.drop_first();
            lemma_pair_canonical(tail, levels);
            if let Ok((lhs, rhs, k)) = pair_at(tail, levels) {
                assert(seq![tag] + body.take((k + 1) as int) =~= seq![tag, body[0]] + tail.take(
                    k as int,
                ));
            }
        }
    } else if tag == AND || tag == OR {
        lemma_group_canonical(body, levels, false);
    } else if tag == NOT || tag == IS_NULL || tag == IS_NOT_NULL {
        lemma_expr_canonical(body, below);
    } else if tag == IN {
        lemma_expr_canonical(body, below);
        if let Ok((needle, j)) = expr_at(body, below) {
            let rest = body.skip(j as int);
            lemma_group_canonical(rest, levels, true);
            if let Ok((list, k)) = group_at(rest, levels, true) {
                assert(body.take((j + k) as int) =~= body.take(j as int) + rest.take(k as int));
            }
        }
    } else if tag == LIKE {
        lemma_expr_canonical(body, below);
        if let Ok((text, j)) = expr_at(body, below) {
            let rest = body.skip(j as int);
            lemma_text_canonical(rest);
            if let Ok((pattern, k)) = text_at(rest) {
                assert(body.take((j + k) as int) =~= body.take(j as int) + rest.take(k as int));
            }
        }
    }
}

proof fn lemma_pair_canonical(s: Seq<u8>, levels: nat)
    requires
        levels > 0,
    ensures
        pair_at(s, levels) matches Ok((lhs, rhs, k)) ==> k <= s.len() && s.take(k as int)
            == expr_bytes(lhs) + expr_bytes(rhs) && writable(lhs, (levels - 1) as nat) && writable(
            rhs,
            (levels - 1) as nat,
        ),
    decreases levels, 0nat, 0nat,
{
    let below = (levels - 1) as nat;
    lemma_expr_canonical(s, below);
    if let Ok((lhs, j)) = expr_at(s, below) {
        let rest = s.skip(j as int);
        lemma_expr_canonical(rest, below);
        if let Ok((rhs, k)) = expr_at(rest, below) {
            assert(s.take((j + k) as int) =~= s.take(j as int) + rest.take(k as int));
        }
    }
}

proof fn lemma_group_canonical(s: Seq<u8>, levels: nat, items: bool)
    requires
        levels > 0,
    ensures
        group_at(s, levels, items) matches Ok((parts, k)) ==> k <= s.len() && s.take(k as int)
            == varint_bytes(parts.len()) + exprs_bytes(parts) && all_writable(
            parts,
            (levels - 1) as nat,
        ) && parts.len() <= u64::MAX,
    decreases levels, 0nat, 0nat,
{
    lemma_varint_canonical(s);
    if let Some((n, k)) = varint_at(s) {
        let tail = s.skip(k as int);
        lemma_parts_canonical(tail, n, (levels - 1) as nat);
        if let Ok((parts, used)) = exprs_at(tail, n, (levels - 1) as nat) {
            assert(s.take((k + used) as int) =~= s.take(k as int) + tail.take(used as int));
        }
    }
}

proof fn lemma_parts_canonical(s: Seq<u8>, n: nat, levels: nat)
    ensures
        exprs_at(s, n, levels) matches Ok((parts, used)) ==> used <= s.len() && s.take(used as int)
            == exprs_bytes(parts) && parts.len() == n && all_writable(parts, levels),
    decreases levels, 3nat, n,
{
    if n == 0 {
        assert(s.take(0) =~= Seq::empty());
    } else {
        lemma_expr_canonical(s, levels);
        if let Ok((first, k)) = expr_at(s, levels) {
            let tail = s.skip(k as int);
            lemma_parts_canonical(tail, (n - 1) as nat, levels);
            if let Ok((others, used)) = exprs_at(tail, (n - 1) as nat, levels) {
                let parts = seq![first] + others;
                assert(parts.drop_first() =~= others);
                assert(s.take((k + used) as int) =~= s.take(k as int) + tail.take(used as int));
                assert forall|i: int| 0 <= i < parts.len() implies writable(
                    #[trigger] parts[i],
                    levels,
                ) by {
                    if i > 0 {
                        assert(parts[i] == others[i - 1]);
                    }
                }
            }
        }
    }
}

/// What is encoded decodes to itself.
pub proof fn decoding_inverts_encoding(e: ExprModel)
    requires
        writable(e, levels_allowed()),
    ensures
        decoded(expr_bytes(e)) == Ok::<ExprModel, Fault>(e),
{
    lemma_expr_round_trip(e, levels_allowed(), Seq::empty());
    assert(expr_bytes(e) + Seq::<u8>::empty() =~= expr_bytes(e));
}

/// Bytes that decode are the encoding of what they decode to, so two different
/// byte strings never mean the same condition.
pub proof fn decoding_admits_one_form(bytes: Seq<u8>)
    ensures
        decoded(bytes) matches Ok(e) ==> bytes == expr_bytes(e) && writable(e, levels_allowed()),
{
    lemma_expr_canonical(bytes, levels_allowed());
    if let Ok((e, k)) = expr_at(bytes, levels_allowed()) {
        if k == bytes.len() {
            assert(bytes.take(k as int) =~= bytes);
        }
    }
}

fn fault_of(f: TextFault) -> (r: Fault)
    ensures
        r == name_fault(f),
{
    match f {
        TextFault::Length => Fault::TruncatedLength,
        TextFault::Short => Fault::TruncatedName,
        TextFault::Utf8(b) => Fault::InvalidUtf8(b),
    }
}

/// What a reading function returns, against what it should have read from
/// `pos` on.
spec fn reads(
    r: Result<(Expr, usize), Fault>,
    want: Result<(ExprModel, nat), Fault>,
    buf: Seq<u8>,
    pos: int,
) -> bool {
    match want {
        Ok((e, k)) => r matches Ok((x, end)) && x.model() == e && end == pos + k && end <= buf.len(),
        Err(f) => r matches Err(g) && g == f,
    }
}

fn get(buf: &[u8], pos: usize, levels: u32) -> (r: Result<(Expr, usize), Fault>)
    requires
        pos <= buf@.len(),
    ensures
        reads(r, expr_at(buf@.skip(pos as int), levels as nat), buf@, pos as int),
    decreases levels, 2int, 0int,
{
    if levels == 0 {
        return Err(Fault::TooDeep);
    }
    if pos >= buf.len() {
        return Err(Fault::Truncated);
    }
    assert(buf@.skip(pos as int).drop_first() =~= buf@.skip(pos + 1));
    get_node(buf[pos], buf, pos + 1, levels)
}

#[verifier::rlimit(60)]
#[verifier::spinoff_prover]
fn get_node(tag: u8, buf: &[u8], pos: usize, levels: u32) -> (r: Result<(Expr, usize), Fault>)
    requires
        pos <= buf@.len(),
        levels > 0,
    ensures
        reads(r, node_at(tag, buf@.skip(pos as int), levels as nat), buf@, pos as int),
    decreases levels, 1int, 0int,
{
    let below: u32 = levels - 1;
    if tag == LITERAL {
        match decode_value(buf, pos) {
            Some((v, end)) => Ok((Expr::Literal(v), end)),
            None => Err(Fault::MalformedValue),
        }
    } else if tag == FIELD {
        match read_text(buf, pos) {
            Ok((name, end)) => Ok((Expr::Field(name), end)),
            Err(f) => Err(fault_of(f)),
        }
    } else if tag == COMPARE {
        if pos >= buf.len() {
            return Err(Fault::Truncated);
        }
        assert(buf@.skip(pos as int).drop_first() =~= buf@.skip(pos + 1));
        match compare_from(buf[pos]) {
            None => Err(Fault::UnknownCompare(buf[pos])),
            Some(op) => match get_pair(buf, pos + 1, levels) {
                Err(f) => Err(f),
                Ok((lhs, rhs, end)) => Ok(
                    (Expr::Compare { op, lhs: Box::new(lhs), rhs: Box::new(rhs) }, end),
                ),
            },
        }
    } else if tag == ARITH {
        if pos >= buf.len() {
            return Err(Fault::Truncated);
        }
        assert(buf@.skip(pos as int).drop_first() =~= buf@.skip(pos + 1));
        match arith_from(buf[pos]) {
            None => Err(Fault::UnknownArith(buf[pos])),
            Some(op) => match get_pair(buf, pos + 1, levels) {
                Err(f) => Err(f),
                Ok((lhs, rhs, end)) => Ok(
                    (Expr::Arith { op, lhs: Box::new(lhs), rhs: Box::new(rhs) }, end),
                ),
            },
        }
    } else if tag == AND {
        match get_group(buf, pos, levels, false) {
            Err(f) => Err(f),
            Ok((parts, end)) => {
                let e = Expr::And(parts);
                assert(e.model()->And_0 =~= expr_models(parts@));
                Ok((e, end))
            },
        }
    } else if tag == OR {
        match get_group(buf, pos, levels, false) {
            Err(f) => Err(f),
            Ok((parts, end)) => {
                let e = Expr::Or(parts);
                assert(e.model()->Or_0 =~= expr_models(parts@));
                Ok((e, end))
            },
        }
    } else if tag == NOT {
        match get(buf, pos, below) {
            Err(f) => Err(f),
            Ok((inner, end)) => Ok((Expr::Not(Box::new(inner)), end)),
        }
    } else if tag == IS_NULL {
        match get(buf, pos, below) {
            Err(f) => Err(f),
            Ok((inner, end)) => Ok((Expr::IsNull(Box::new(inner)), end)),
        }
    } else if tag == IS_NOT_NULL {
        match get(buf, pos, below) {
            Err(f) => Err(f),
            Ok((inner, end)) => Ok((Expr::IsNotNull(Box::new(inner)), end)),
        }
    } else if tag == IN {
        match get(buf, pos, below) {
            Err(f) => Err(f),
            Ok((needle, mid)) => {
                assert(buf@.skip(pos as int).skip(mid - pos) =~= buf@.skip(mid as int));
                match get_group(buf, mid, levels, true) {
                    Err(f) => Err(f),
                    Ok((list, end)) => {
                        let e = Expr::In { needle: Box::new(needle), list };
                        assert(e.model()->list =~= expr_models(list@));
                        Ok((e, end))
                    },
                }
            },
        }
    } else if tag == LIKE {
        match get(buf, pos, below) {
            Err(f) => Err(f),
            Ok((text, mid)) => {
                assert(buf@.skip(pos as int).skip(mid - pos) =~= buf@.skip(mid as int));
                match read_text(buf, mid) {
                    Err(f) => Err(fault_of(f)),
                    Ok((pattern, end)) => Ok((Expr::Like { text: Box::new(text), pattern }, end)),
                }
            },
        }
    } else {
        Err(Fault::UnknownTag(tag))
    }
}

fn get_pair(buf: &[u8], pos: usize, levels: u32) -> (r: Result<(Expr, Expr, usize), Fault>)
    requires
        pos <= buf@.len(),
        levels > 0,
    ensures
        match pair_at(buf@.skip(pos as int), levels as nat) {
            Ok((lhs, rhs, k)) => r matches Ok((x, y, end)) && x.model() == lhs && y.model() == rhs
                && end == pos + k && end <= buf@.len(),
            Err(f) => r matches Err(g) && g == f,
        },
    decreases levels, 0int, 0int,
{
    match get(buf, pos, levels - 1) {
        Err(f) => Err(f),
        Ok((lhs, mid)) => {
            assert(buf@.skip(pos as int).skip(mid - pos) =~= buf@.skip(mid as int));
            match get(buf, mid, levels - 1) {
                Err(f) => Err(f),
                Ok((rhs, end)) => Ok((lhs, rhs, end)),
            }
        },
    }
}

fn get_group(buf: &[u8], pos: usize, levels: u32, items: bool) -> (r: Result<
    (Vec<Expr>, usize),
    Fault,
>)
    requires
        pos <= buf@.len(),
        levels > 0,
    ensures
        match group_at(buf@.skip(pos as int), levels as nat, items) {
            Ok((parts, k)) => r matches Ok((out, end)) && expr_models(out@) == parts && end == pos
                + k && end <= buf@.len(),
            Err(f) => r matches Err(g) && g == f,
        },
    decreases levels, 0int, 0int,
{
    proof {
        lemma_varint_canonical(buf@.skip(pos as int));
    }
    match read_u64(buf, pos) {
        None => Err(Fault::TruncatedLength),
        Some((n, start)) => {
            let left: u64 = (buf.len() - start) as u64;
            if n > left {
                return if items {
                    Err(Fault::TooManyItems { declared: n, left })
                } else {
                    Err(Fault::TooManyOperands { declared: n, left })
                };
            }
            assert(buf@.skip(pos as int).skip(start - pos) =~= buf@.skip(start as int));
            get_all(buf, start, n, levels - 1)
        },
    }
}

fn get_all(buf: &[u8], pos: usize, n: u64, levels: u32) -> (r: Result<(Vec<Expr>, usize), Fault>)
    requires
        pos <= buf@.len(),
    ensures
        match exprs_at(buf@.skip(pos as int), n as nat, levels as nat) {
            Ok((parts, used)) => r matches Ok((out, end)) && expr_models(out@) == parts && end
                == pos + used && end <= buf@.len(),
            Err(f) => r matches Err(g) && g == f,
        },
    decreases levels, 3int, n,
{
    let mut out: Vec<Expr> = Vec::new();
    let mut at: usize = pos;
    let mut left: u64 = n;
    let ghost total = exprs_at(buf@.skip(pos as int), n as nat, levels as nat);
    while left > 0
        invariant
            pos <= at <= buf@.len(),
            left <= n,
            total == exprs_at(buf@.skip(pos as int), n as nat, levels as nat),
            match exprs_at(buf@.skip(at as int), left as nat, levels as nat) {
                Ok((parts, used)) => total == Ok::<(Seq<ExprModel>, nat), Fault>(
                    (expr_models(out@) + parts, (at - pos + used) as nat),
                ),
                Err(f) => total == Err::<(Seq<ExprModel>, nat), Fault>(f),
            },
        decreases left,
    {
        let ghost here = buf@.skip(at as int);
        match get(buf, at, levels) {
            Err(f) => {
                return Err(f);
            },
            Ok((e, end)) => {
                assert(here.skip(end - at) =~= buf@.skip(end as int));
                proof {
                    if let Ok((others, used)) = exprs_at(
                        buf@.skip(end as int),
                        (left - 1) as nat,
                        levels as nat,
                    ) {
                        assert(expr_models(out@.push(e)) =~= expr_models(out@).push(e.model()));
                        assert(expr_models(out@) + (seq![e.model()] + others) =~= expr_models(
                            out@.push(e),
                        ) + others);
                    }
                }
                out.push(e);
                at = end;
                left -= 1;
            },
        }
    }
    assert(expr_models(out@) + Seq::empty() =~= expr_models(out@));
    Ok((out, at))
}

fn decode_bytes(buf: &[u8]) -> (r: Result<Expr, Fault>)
    ensures
        match decoded(buf@) {
            Ok(e) => r matches Ok(x) && x.model() == e,
            Err(f) => r matches Err(g) && g == f,
        },
{
    assert(buf@.skip(0) =~= buf@);
    match get(buf, 0, MAX_DEPTH + 1) {
        Err(f) => Err(f),
        Ok((e, end)) => {
            if end != buf.len() {
                Err(Fault::Trailing((buf.len() - end) as u64))
            } else {
                Ok(e)
            }
        },
    }
}

/// Decode an expression, refusing malformed or over-deep input.
pub fn decode_expr(buf: &[u8]) -> (r: Result<Expr, Error>)
    ensures
        match decoded(buf@) {
            Ok(e) => r matches Ok(x) && x.model() == e,
            Err(f) => r matches Err(err) && err@ == ErrorModel::Corruption(fault_text(f)),
        },
{
    match decode_bytes(buf) {
        Ok(e) => Ok(e),
        Err(f) => Err(Error::Corruption(f.message())),
    }
}

// -- hexadecimal -------------------------------------------------------------

/// The lower-case hexadecimal digit of a number below sixteen.
pub open spec fn hex_char(n: int) -> char {
    if n < 10 {
        crate::text::digit_char(n as nat)
    } else if n == 10 {
        'a'
    } else if n == 11 {
        'b'
    } else if n == 12 {
        'c'
    } else if n == 13 {
        'd'
    } else if n == 14 {
        'e'
    } else {
        'f'
    }
}

/// Bytes as lower-case hexadecimal, two digits each.
pub open spec fn hex_text(bytes: Seq<u8>) -> Seq<char> {
    Seq::new(
        2 * bytes.len(),
        |i: int|
            if i % 2 == 0 {
                hex_char((bytes[i / 2] / 16) as int)
            } else {
                hex_char((bytes[i / 2] % 16) as int)
            },
    )
}

/// The number a hexadecimal digit, of either case, stands for.
pub open spec fn hex_value(b: u8) -> Option<u8> {
    if 48 <= b <= 57 {
        Some((b - 48) as u8)
    } else if 97 <= b <= 102 {
        Some((b - 87) as u8)
    } else if 65 <= b <= 70 {
        Some((b - 55) as u8)
    } else {
        None
    }
}

/// What hexadecimal digits stand for.
pub open spec fn unhexed(raw: Seq<u8>) -> Result<Seq<u8>, Fault> {
    if raw.len() % 2 != 0 {
        Err(Fault::OddDigits)
    } else if exists|i: int| 0 <= i < raw.len() && hex_value(#[trigger] raw[i]) is None {
        Err(Fault::NotHex)
    } else {
        Ok(
            Seq::new(
                raw.len() / 2,
                |i: int| (hex_value(raw[2 * i])->0 * 16 + hex_value(raw[2 * i + 1])->0) as u8,
            ),
        )
    }
}

/// What hexadecimal text decodes to.
pub open spec fn decoded_hex(s: Seq<char>) -> Result<ExprModel, Fault> {
    match unhexed(encode_utf8(s)) {
        Err(f) => Err(f),
        Ok(bytes) => decoded(bytes),
    }
}

/// Reading back hexadecimal gives the bytes it was written from.
pub proof fn lemma_hex_round_trip(bytes: Seq<u8>)
    ensures
        unhexed(encode_utf8(hex_text(bytes))) == Ok::<Seq<u8>, Fault>(bytes),
{
    let t = hex_text(bytes);
    assert(is_ascii_chars(t));
    is_ascii_chars_encode_utf8(t);
    let raw = encode_utf8(t);
    assert forall|i: int| 0 <= i < raw.len() implies hex_value(#[trigger] raw[i]) == Some(
        (if i % 2 == 0 {
            bytes[i / 2] / 16
        } else {
            bytes[i / 2] % 16
        }),
    ) by {
        assert(raw[i] == t[i] as u8);
    }
    let back = unhexed(raw)->Ok_0;
    assert(back.len() == bytes.len());
    assert forall|i: int| 0 <= i < bytes.len() implies back[i] == bytes[i] by {
        assert((2 * i) / 2 == i && (2 * i + 1) / 2 == i);
        assert(hex_value(raw[2 * i]) == Some(bytes[i] / 16));
        assert(hex_value(raw[2 * i + 1]) == Some(bytes[i] % 16));
    }
    assert(back =~= bytes);
}

/// What is encoded as hexadecimal decodes to itself.
pub proof fn hex_decoding_inverts_hex_encoding(e: ExprModel)
    requires
        writable(e, levels_allowed()),
    ensures
        decoded_hex(hex_text(expr_bytes(e))) == Ok::<ExprModel, Fault>(e),
{
    lemma_hex_round_trip(expr_bytes(e));
    decoding_inverts_encoding(e);
}

fn hex_digit(n: u8) -> (s: &'static str)
    requires
        n < 16,
    ensures
        s@ == seq![hex_char(n as int)],
{
    proof {
        reveal_strlit("0");
        reveal_strlit("1");
        reveal_strlit("2");
        reveal_strlit("3");
        reveal_strlit("4");
        reveal_strlit("5");
        reveal_strlit("6");
        reveal_strlit("7");
        reveal_strlit("8");
        reveal_strlit("9");
        reveal_strlit("a");
        reveal_strlit("b");
        reveal_strlit("c");
        reveal_strlit("d");
        reveal_strlit("e");
        reveal_strlit("f");
    }
    let s = match n {
        0 => "0",
        1 => "1",
        2 => "2",
        3 => "3",
        4 => "4",
        5 => "5",
        6 => "6",
        7 => "7",
        8 => "8",
        9 => "9",
        10 => "a",
        11 => "b",
        12 => "c",
        13 => "d",
        14 => "e",
        _ => "f",
    };
    assert(s@ =~= seq![hex_char(n as int)]);
    s
}

/// The encoding as lower-case hexadecimal.
pub fn encode_expr_hex(e: &Expr) -> (r: Result<String, Error>)
    ensures
        match r {
            Ok(s) => within(e.model(), levels_allowed()) && s@ == hex_text(expr_bytes(e.model()))
                && expr_sized(e.model()),
            Err(err) => !within(e.model(), levels_allowed()) && err@
                == ErrorModel::InvalidOptimization(fault_text(Fault::TooDeep)),
        },
{
    match encode_expr(e) {
        Err(err) => Err(err),
        Ok(bytes) => {
            let mut s = String::new();
            let mut i: usize = 0;
            assert(s@ =~= hex_text(bytes@.take(0)));
            while i < bytes.len()
                invariant
                    i <= bytes.len(),
                    s@ == hex_text(bytes@.take(i as int)),
                decreases bytes.len() - i,
            {
                s.append(hex_digit(bytes[i] / 16));
                s.append(hex_digit(bytes[i] % 16));
                assert(s@ =~= hex_text(bytes@.take(i + 1)));
                i += 1;
            }
            assert(bytes@.take(i as int) =~= bytes@);
            Ok(s)
        },
    }
}

fn digit_of(b: u8) -> (r: Option<u8>)
    ensures
        r == hex_value(b),
        r matches Some(n) ==> n < 16,
{
    if 48 <= b && b <= 57 {
        Some(b - 48)
    } else if 97 <= b && b <= 102 {
        Some(b - 87)
    } else if 65 <= b && b <= 70 {
        Some(b - 55)
    } else {
        None
    }
}

fn unhex(raw: &[u8]) -> (r: Result<Vec<u8>, Fault>)
    ensures
        match unhexed(raw@) {
            Ok(b) => r matches Ok(v) && v@ == b,
            Err(f) => r matches Err(g) && g == f,
        },
{
    if raw.len() % 2 != 0 {
        return Err(Fault::OddDigits);
    }
    let mut out: Vec<u8> = Vec::new();
    let mut i: usize = 0;
    while i < raw.len()
        invariant
            i <= raw.len(),
            raw@.len() % 2 == 0,
            i % 2 == 0,
            out@.len() == i / 2,
            forall|k: int| 0 <= k < i ==> hex_value(#[trigger] raw@[k]) is Some,
            forall|k: int|
                0 <= k < i / 2 ==> #[trigger] out@[k] == (hex_value(raw@[2 * k])->0 * 16
                    + hex_value(raw@[2 * k + 1])->0) as u8,
        decreases raw.len() - i,
    {
        let hi = digit_of(raw[i]);
        let lo = digit_of(raw[i + 1]);
        match (hi, lo) {
            (Some(h), Some(l)) => {
                out.push(h * 16 + l);
            },
            _ => {
                assert(hex_value(raw@[i as int]) is None || hex_value(raw@[i + 1]) is None);
                return Err(Fault::NotHex);
            },
        }
        i += 2;
    }
    assert(out@ =~= unhexed(raw@)->Ok_0);
    Ok(out)
}

/// Inverse of [`encode_expr_hex`].
pub fn decode_expr_hex(s: &str) -> (r: Result<Expr, Error>)
    ensures
        match decoded_hex(s@) {
            Ok(e) => r matches Ok(x) && x.model() == e,
            Err(f) => r matches Err(err) && err@ == ErrorModel::Corruption(fault_text(f)),
        },
{
    match unhex(s.as_bytes()) {
        Err(f) => Err(Error::Corruption(f.message())),
        Ok(bytes) => decode_expr(bytes.as_slice()),
    }
}

} // verus!
