//! Conditions on records.

use vstd::prelude::*;
use crate::text::{contains_str, str_eq, texts};
use crate::value::{Value, ValueModel};

verus! {

#[derive(Clone, Copy, Debug, PartialEq, Eq, Structural)]
pub enum CmpOp {
    Eq,
    Ne,
    Lt,
    Le,
    Gt,
    Ge,
}

#[derive(Clone, Copy, Debug, PartialEq, Eq, Structural)]
pub enum ArithOp {
    Add,
    Sub,
    Mul,
    Div,
}

/// An expression over one record.
#[allow(inconsistent_fields)]
#[derive(Debug, PartialEq, Eq)]
pub enum Expr {
    Literal(Value),
    Field(String),
    Compare { op: CmpOp, lhs: Box<Expr>, rhs: Box<Expr> },
    And(Vec<Expr>),
    Or(Vec<Expr>),
    Not(Box<Expr>),
    IsNull(Box<Expr>),
    IsNotNull(Box<Expr>),
    Arith { op: ArithOp, lhs: Box<Expr>, rhs: Box<Expr> },
    In { needle: Box<Expr>, list: Vec<Expr> },
    Like { text: Box<Expr>, pattern: String },
}

/// What an [`Expr`] means.
#[allow(inconsistent_fields)]
pub enum ExprModel {
    Literal(ValueModel),
    Field(Seq<char>),
    Compare { op: CmpOp, lhs: Box<ExprModel>, rhs: Box<ExprModel> },
    And(Seq<ExprModel>),
    Or(Seq<ExprModel>),
    Not(Box<ExprModel>),
    IsNull(Box<ExprModel>),
    IsNotNull(Box<ExprModel>),
    Arith { op: ArithOp, lhs: Box<ExprModel>, rhs: Box<ExprModel> },
    In { needle: Box<ExprModel>, list: Seq<ExprModel> },
    Like { text: Box<ExprModel>, pattern: Seq<char> },
}

impl Expr {
    pub open spec fn model(&self) -> ExprModel
        decreases self,
    {
        match self {
            Expr::Literal(v) => ExprModel::Literal(v.model()),
            Expr::Field(name) => ExprModel::Field(name@),
            Expr::Compare { op, lhs, rhs } => ExprModel::Compare {
                op: *op,
                lhs: Box::new(lhs.model()),
                rhs: Box::new(rhs.model()),
            },
            Expr::And(parts) => ExprModel::And(
                Seq::new(
                    parts@.len(),
                    |i: int|
                        if 0 <= i < parts@.len() {
                            parts@[i].model()
                        } else {
                            ExprModel::And(Seq::empty())
                        },
                ),
            ),
            Expr::Or(parts) => ExprModel::Or(
                Seq::new(
                    parts@.len(),
                    |i: int|
                        if 0 <= i < parts@.len() {
                            parts@[i].model()
                        } else {
                            ExprModel::And(Seq::empty())
                        },
                ),
            ),
            Expr::Not(inner) => ExprModel::Not(Box::new(inner.model())),
            Expr::IsNull(inner) => ExprModel::IsNull(Box::new(inner.model())),
            Expr::IsNotNull(inner) => ExprModel::IsNotNull(Box::new(inner.model())),
            Expr::Arith { op, lhs, rhs } => ExprModel::Arith {
                op: *op,
                lhs: Box::new(lhs.model()),
                rhs: Box::new(rhs.model()),
            },
            Expr::In { needle, list } => ExprModel::In {
                needle: Box::new(needle.model()),
                list: Seq::new(
                    list@.len(),
                    |i: int|
                        if 0 <= i < list@.len() {
                            list@[i].model()
                        } else {
                            ExprModel::And(Seq::empty())
                        },
                ),
            },
            Expr::Like { text, pattern } => ExprModel::Like {
                text: Box::new(text.model()),
                pattern: pattern@,
            },
        }
    }

    /// A field by name.
    pub fn field(name: &str) -> (e: Expr)
        ensures
            e.model() == ExprModel::Field(name@),
    {
        Expr::Field(name.to_owned())
    }

    /// A constant.
    pub fn lit(value: Value) -> (e: Expr)
        ensures
            e.model() == ExprModel::Literal(value.model()),
    {
        Expr::Literal(value)
    }

    /// A field compared with a constant.
    pub fn compare(name: &str, op: CmpOp, value: Value) -> (e: Expr)
        ensures
            e.model() == (ExprModel::Compare {
                op,
                lhs: Box::new(ExprModel::Field(name@)),
                rhs: Box::new(ExprModel::Literal(value.model())),
            }),
    {
        proof {
            reveal_with_fuel(Expr::model, 2);
        }
        Expr::Compare {
            op,
            lhs: Box::new(Expr::field(name)),
            rhs: Box::new(Expr::Literal(value)),
        }
    }
}

/// The meaning of each expression of a sequence.
pub open spec fn expr_models(s: Seq<Expr>) -> Seq<ExprModel> {
    s.map_values(|e: Expr| e.model())
}

impl Expr {
    /// A copy that means the same.
    pub fn dup(&self) -> (r: Expr)
        ensures
            r.model() == self.model(),
        decreases self, 0int,
    {
        match self {
            Expr::Literal(v) => Expr::Literal(v.dup()),
            Expr::Field(name) => Expr::Field(name.clone()),
            Expr::Compare { op, lhs, rhs } => Expr::Compare {
                op: *op,
                lhs: Box::new(lhs.dup()),
                rhs: Box::new(rhs.dup()),
            },
            Expr::And(parts) => {
                assert(decreases_to!(self => self->And_0));
                let r = Expr::And(dup_exprs(parts));
                assert(r.model()->And_0 =~= expr_models(r->And_0@));
                assert(self.model()->And_0 =~= expr_models(parts@));
                r
            },
            Expr::Or(parts) => {
                assert(decreases_to!(self => self->Or_0));
                let r = Expr::Or(dup_exprs(parts));
                assert(r.model()->Or_0 =~= expr_models(r->Or_0@));
                assert(self.model()->Or_0 =~= expr_models(parts@));
                r
            },
            Expr::Not(inner) => Expr::Not(Box::new(inner.dup())),
            Expr::IsNull(inner) => Expr::IsNull(Box::new(inner.dup())),
            Expr::IsNotNull(inner) => Expr::IsNotNull(Box::new(inner.dup())),
            Expr::Arith { op, lhs, rhs } => Expr::Arith {
                op: *op,
                lhs: Box::new(lhs.dup()),
                rhs: Box::new(rhs.dup()),
            },
            Expr::In { needle, list } => {
                assert(decreases_to!(self => self->list));
                let r = Expr::In { needle: Box::new(needle.dup()), list: dup_exprs(list) };
                assert(r.model()->list =~= expr_models(r->list@));
                assert(self.model()->list =~= expr_models(list@));
                r
            },
            Expr::Like { text, pattern } => Expr::Like {
                text: Box::new(text.dup()),
                pattern: pattern.clone(),
            },
        }
    }
}

fn dup_exprs(parts: &Vec<Expr>) -> (r: Vec<Expr>)
    ensures
        expr_models(r@) == expr_models(parts@),
    decreases parts, 1int,
{
    let mut out: Vec<Expr> = Vec::new();
    let mut i: usize = 0;
    while i < parts.len()
        invariant
            i <= parts.len(),
            out@.len() == i,
            forall|k: int| 0 <= k < i ==> (#[trigger] out@[k]).model() == parts@[k].model(),
        decreases parts.len() - i,
    {
        assert(decreases_to!(parts@ => parts@[i as int]));
        out.push(parts[i].dup());
        i += 1;
    }
    assert(expr_models(out@) =~= expr_models(parts@));
    out
}

// -- what a predicate says about fields --------------------------------------

/// `s` with `x` at its end, unless it is there.
pub open spec fn push_new(s: Seq<Seq<char>>, x: Seq<char>) -> Seq<Seq<char>> {
    if s.contains(x) {
        s
    } else {
        s.push(x)
    }
}

/// The fields `e` mentions, each once, after those in `acc`, in the order they
/// are first mentioned.
pub open spec fn mentioned(e: ExprModel, acc: Seq<Seq<char>>) -> Seq<Seq<char>>
    decreases e, 0int,
{
    match e {
        ExprModel::Literal(_) => acc,
        ExprModel::Field(name) => push_new(acc, name),
        ExprModel::Compare { op, lhs, rhs } => mentioned(*rhs, mentioned(*lhs, acc)),
        ExprModel::And(parts) => all_mentioned(parts, acc),
        ExprModel::Or(parts) => all_mentioned(parts, acc),
        ExprModel::Not(inner) => mentioned(*inner, acc),
        ExprModel::IsNull(inner) => mentioned(*inner, acc),
        ExprModel::IsNotNull(inner) => mentioned(*inner, acc),
        ExprModel::Arith { op, lhs, rhs } => mentioned(*rhs, mentioned(*lhs, acc)),
        ExprModel::In { needle, list } => all_mentioned(list, mentioned(*needle, acc)),
        ExprModel::Like { text, pattern } => mentioned(*text, acc),
    }
}

pub open spec fn all_mentioned(parts: Seq<ExprModel>, acc: Seq<Seq<char>>) -> Seq<Seq<char>>
    decreases parts, 1int,
{
    if parts.len() == 0 {
        acc
    } else {
        all_mentioned(parts.drop_first(), mentioned(parts[0], acc))
    }
}

/// The fields a predicate pins to a constant: `field = constant`, alone or as
/// part of a conjunction.
pub open spec fn pinned(e: ExprModel) -> Seq<Seq<char>>
    decreases e, 0int,
{
    match e {
        ExprModel::Compare { op, lhs, rhs } => match (op, *lhs, *rhs) {
            (CmpOp::Eq, ExprModel::Field(name), ExprModel::Literal(_)) => seq![name],
            _ => Seq::empty(),
        },
        ExprModel::And(parts) => all_pinned(parts),
        _ => Seq::empty(),
    }
}

pub open spec fn all_pinned(parts: Seq<ExprModel>) -> Seq<Seq<char>>
    decreases parts, 1int,
{
    if parts.len() == 0 {
        Seq::empty()
    } else {
        pinned(parts[0]) + all_pinned(parts.drop_first())
    }
}

/// Whether a predicate compares `field` by order, alone or as part of a
/// conjunction.
pub open spec fn ranged(e: ExprModel, field: Seq<char>) -> bool
    decreases e,
{
    match e {
        ExprModel::Compare { op, lhs, rhs } => {
            &&& op == CmpOp::Ge || op == CmpOp::Gt || op == CmpOp::Le || op == CmpOp::Lt
            &&& *lhs == ExprModel::Field(field)
        },
        ExprModel::And(parts) => exists|i: int|
            0 <= i < parts.len() && ranged(#[trigger] parts[i], field),
        _ => false,
    }
}

fn push_name(out: &mut Vec<String>, name: &str)
    ensures
        texts(final(out)@) == push_new(texts(old(out)@), name@),
{
    if !contains_str(out, name) {
        let ghost before = out@;
        out.push(name.to_owned());
        assert(texts(out@) =~= texts(before).push(name@));
    }
}

impl Expr {
    /// Add every field this expression mentions to `out`.
    pub fn referenced_fields(&self, out: &mut Vec<String>)
        ensures
            texts(final(out)@) == mentioned(self.model(), texts(old(out)@)),
        decreases self, 0int,
    {
        match self {
            Expr::Literal(_) => {},
            Expr::Field(name) => {
                push_name(out, name.as_str());
            },
            Expr::Compare { op, lhs, rhs } => {
                lhs.referenced_fields(out);
                rhs.referenced_fields(out);
            },
            Expr::And(parts) => {
                assert(decreases_to!(self => self->And_0));
                assert(self.model()->And_0 =~= expr_models(parts@));
                all_fields(parts, out);
            },
            Expr::Or(parts) => {
                assert(decreases_to!(self => self->Or_0));
                assert(self.model()->Or_0 =~= expr_models(parts@));
                all_fields(parts, out);
            },
            Expr::Not(inner) => {
                inner.referenced_fields(out);
            },
            Expr::IsNull(inner) => {
                inner.referenced_fields(out);
            },
            Expr::IsNotNull(inner) => {
                inner.referenced_fields(out);
            },
            Expr::Arith { op, lhs, rhs } => {
                lhs.referenced_fields(out);
                rhs.referenced_fields(out);
            },
            Expr::In { needle, list } => {
                assert(decreases_to!(self => self->list));
                assert(self.model()->list =~= expr_models(list@));
                needle.referenced_fields(out);
                all_fields(list, out);
            },
            Expr::Like { text, pattern } => {
                text.referenced_fields(out);
            },
        }
    }

    /// Add every field this predicate pins to a constant to `out`.
    pub fn equality_fields(&self, out: &mut Vec<String>)
        ensures
            texts(final(out)@) == texts(old(out)@) + pinned(self.model()),
        decreases self, 0int,
    {
        let ghost before = texts(out@);
        match self {
            Expr::Compare { op, lhs, rhs } => {
                match (op, lhs.as_field(), rhs.is_literal()) {
                    (CmpOp::Eq, Some(name), true) => {
                        let ghost held = out@;
                        out.push(name.to_owned());
                        assert(texts(out@) =~= texts(held) + seq![name@]);
                    },
                    _ => {},
                }
                assert(texts(out@) =~= before + pinned(self.model()));
            },
            Expr::And(parts) => {
                assert(decreases_to!(self => self->And_0));
                assert(self.model()->And_0 =~= expr_models(parts@));
                all_equalities(parts, out);
            },
            _ => {
                assert(texts(out@) =~= before + pinned(self.model()));
            },
        }
    }

    fn as_field(&self) -> (r: Option<&str>)
        ensures
            match self.model() {
                ExprModel::Field(name) => r matches Some(s) && s@ == name,
                _ => r is None,
            },
    {
        match self {
            Expr::Field(name) => Some(name.as_str()),
            _ => None,
        }
    }

    fn is_literal(&self) -> (r: bool)
        ensures
            r == (self.model() is Literal),
    {
        match self {
            Expr::Literal(_) => true,
            _ => false,
        }
    }
}

fn all_fields(parts: &Vec<Expr>, out: &mut Vec<String>)
    ensures
        texts(final(out)@) == all_mentioned(expr_models(parts@), texts(old(out)@)),
    decreases parts, 1int,
{
    let ghost all = expr_models(parts@);
    let ghost want = all_mentioned(all, texts(out@));
    assert(all.skip(0) =~= all);
    let mut i: usize = 0;
    while i < parts.len()
        invariant
            i <= parts.len(),
            all == expr_models(parts@),
            all_mentioned(all.skip(i as int), texts(out@)) == want,
        decreases parts.len() - i,
    {
        assert(decreases_to!(parts@ => parts@[i as int]));
        assert(all.skip(i as int).drop_first() =~= all.skip(i + 1));
        parts[i].referenced_fields(out);
        i += 1;
    }
    assert(all.skip(i as int) =~= Seq::empty());
}

fn all_equalities(parts: &Vec<Expr>, out: &mut Vec<String>)
    ensures
        texts(final(out)@) == texts(old(out)@) + all_pinned(expr_models(parts@)),
    decreases parts, 1int,
{
    let ghost all = expr_models(parts@);
    let ghost want = texts(out@) + all_pinned(all);
    assert(all.skip(0) =~= all);
    let mut i: usize = 0;
    while i < parts.len()
        invariant
            i <= parts.len(),
            all == expr_models(parts@),
            texts(out@) + all_pinned(all.skip(i as int)) == want,
        decreases parts.len() - i,
    {
        let ghost before = texts(out@);
        assert(decreases_to!(parts@ => parts@[i as int]));
        assert(all.skip(i as int).drop_first() =~= all.skip(i + 1));
        parts[i].equality_fields(out);
        assert(texts(out@) + all_pinned(all.skip(i + 1)) =~= before + all_pinned(
            all.skip(i as int),
        ));
        i += 1;
    }
    assert(all.skip(i as int) =~= Seq::empty());
    assert(texts(out@) + Seq::empty() =~= texts(out@));
}

/// Whether `predicate` constrains `field` with at least one ordered comparison:
/// a range want, as distinct from an equality pin.
pub fn range_constrained(predicate: &Expr, field: &str) -> (r: bool)
    ensures
        r == ranged(predicate.model(), field@),
    decreases predicate,
{
    match predicate {
        Expr::Compare { op, lhs, rhs } => {
            let ordered = match op {
                CmpOp::Ge => true,
                CmpOp::Gt => true,
                CmpOp::Le => true,
                CmpOp::Lt => true,
                _ => false,
            };
            match lhs.as_field() {
                Some(name) => ordered && str_eq(name, field),
                None => false,
            }
        },
        Expr::And(parts) => {
            assert(decreases_to!(predicate => predicate->And_0));
            let ghost all = predicate.model()->And_0;
            let mut i: usize = 0;
            while i < parts.len()
                invariant
                    i <= parts.len(),
                    *predicate == Expr::And(*parts),
                    all == predicate.model()->And_0,
                    all.len() == parts@.len(),
                    forall|k: int| 0 <= k < i ==> !ranged(#[trigger] all[k], field@),
                decreases parts.len() - i,
            {
                assert(decreases_to!(predicate => predicate->And_0));
                assert(all[i as int] == parts@[i as int].model());
                if range_constrained(&parts[i], field) {
                    return true;
                }
                i += 1;
            }
            false
        },
        _ => false,
    }
}

// -- what a predicate is about --------------------------------------------------------

/// Whether an expression stands anywhere in another, or is it.
pub open spec fn occurs_in(part: ExprModel, e: ExprModel) -> bool
    decreases e,
{
    part == e || match e {
        ExprModel::Compare { lhs, rhs, .. } => occurs_in(part, *lhs) || occurs_in(part, *rhs),
        ExprModel::And(parts) => exists|i: int|
            0 <= i < parts.len() && occurs_in(part, #[trigger] parts[i]),
        ExprModel::Or(parts) => exists|i: int|
            0 <= i < parts.len() && occurs_in(part, #[trigger] parts[i]),
        ExprModel::Not(inner) => occurs_in(part, *inner),
        ExprModel::IsNull(inner) => occurs_in(part, *inner),
        ExprModel::IsNotNull(inner) => occurs_in(part, *inner),
        ExprModel::Arith { lhs, rhs, .. } => occurs_in(part, *lhs) || occurs_in(part, *rhs),
        ExprModel::In { needle, list } => occurs_in(part, *needle) || exists|i: int|
            0 <= i < list.len() && occurs_in(part, #[trigger] list[i]),
        ExprModel::Like { text, .. } => occurs_in(part, *text),
        _ => false,
    }
}

/// The fields an expression mentions are those that stand anywhere in it: all of them, no
/// others, and each once.
pub proof fn what_is_mentioned_stands_in_the_expression(
    e: ExprModel,
    acc: Seq<Seq<char>>,
    field: Seq<char>,
)
    ensures
        mentioned(e, acc).contains(field) <==> acc.contains(field) || occurs_in(
            ExprModel::Field(field),
            e,
        ),
        acc.no_duplicates() ==> mentioned(e, acc).no_duplicates(),
    decreases e, 0int,
{
    match e {
        ExprModel::Literal(_) => {},
        ExprModel::Field(name) => {
            lemma_push_new(acc, name, field);
        },
        ExprModel::Compare { op, lhs, rhs } => {
            what_is_mentioned_stands_in_the_expression(*lhs, acc, field);
            what_is_mentioned_stands_in_the_expression(*rhs, mentioned(*lhs, acc), field);
        },
        ExprModel::And(parts) => {
            assert(decreases_to!(e => parts));
            lemma_all_mentioned(parts, acc, field);
        },
        ExprModel::Or(parts) => {
            assert(decreases_to!(e => parts));
            lemma_all_mentioned(parts, acc, field);
        },
        ExprModel::Not(inner) => {
            what_is_mentioned_stands_in_the_expression(*inner, acc, field);
        },
        ExprModel::IsNull(inner) => {
            what_is_mentioned_stands_in_the_expression(*inner, acc, field);
        },
        ExprModel::IsNotNull(inner) => {
            what_is_mentioned_stands_in_the_expression(*inner, acc, field);
        },
        ExprModel::Arith { op, lhs, rhs } => {
            what_is_mentioned_stands_in_the_expression(*lhs, acc, field);
            what_is_mentioned_stands_in_the_expression(*rhs, mentioned(*lhs, acc), field);
        },
        ExprModel::In { needle, list } => {
            what_is_mentioned_stands_in_the_expression(*needle, acc, field);
            assert(decreases_to!(e => list));
            lemma_all_mentioned(list, mentioned(*needle, acc), field);
        },
        ExprModel::Like { text, pattern } => {
            what_is_mentioned_stands_in_the_expression(*text, acc, field);
        },
    }
}

proof fn lemma_push_new(s: Seq<Seq<char>>, x: Seq<char>, y: Seq<char>)
    ensures
        push_new(s, x).contains(y) <==> s.contains(y) || x == y,
        s.no_duplicates() ==> push_new(s, x).no_duplicates(),
{
    let t = push_new(s, x);
    if !s.contains(x) {
        assert(t[s.len() as int] == x);
        if s.contains(y) {
            let i = choose|i: int| 0 <= i < s.len() && s[i] == y;
            assert(t[i] == y);
        }
    }
}

proof fn lemma_all_mentioned(parts: Seq<ExprModel>, acc: Seq<Seq<char>>, field: Seq<char>)
    ensures
        all_mentioned(parts, acc).contains(field) <==> acc.contains(field) || exists|i: int|
            0 <= i < parts.len() && occurs_in(ExprModel::Field(field), #[trigger] parts[i]),
        acc.no_duplicates() ==> all_mentioned(parts, acc).no_duplicates(),
    decreases parts, 1int,
{
    let f = ExprModel::Field(field);
    if parts.len() > 0 {
        let rest = parts.drop_first();
        assert(decreases_to!(parts => parts[0]));
        assert(decreases_to!(parts => rest));
        what_is_mentioned_stands_in_the_expression(parts[0], acc, field);
        lemma_all_mentioned(rest, mentioned(parts[0], acc), field);
        if exists|i: int| 0 <= i < parts.len() && occurs_in(f, #[trigger] parts[i]) {
            let i = choose|i: int| 0 <= i < parts.len() && occurs_in(f, #[trigger] parts[i]);
            if i > 0 {
                assert(rest[i - 1] == parts[i]);
            }
        }
        if exists|i: int| 0 <= i < rest.len() && occurs_in(f, #[trigger] rest[i]) {
            let i = choose|i: int| 0 <= i < rest.len() && occurs_in(f, #[trigger] rest[i]);
            assert(parts[i + 1] == rest[i]);
        }
    }
}

/// Whether an expression has to hold wherever another does, for it is that one or a part of
/// a conjunction.
pub open spec fn conjunct_of(part: ExprModel, e: ExprModel) -> bool
    decreases e,
{
    part == e || match e {
        ExprModel::And(parts) => exists|i: int|
            0 <= i < parts.len() && conjunct_of(part, #[trigger] parts[i]),
        _ => false,
    }
}

/// Whether an expression says that a field equals some constant.
pub open spec fn pins_field(e: ExprModel, field: Seq<char>) -> bool {
    e matches ExprModel::Compare { op, lhs, rhs } && op is Eq && *lhs == ExprModel::Field(field)
        && *rhs is Literal
}

/// Whether an expression holds a field to one side of something.
pub open spec fn bounds_field(e: ExprModel, field: Seq<char>) -> bool {
    e matches ExprModel::Compare { op, lhs, .. } && (op is Lt || op is Le || op is Gt || op is Ge)
        && *lhs == ExprModel::Field(field)
}

/// A predicate pins the fields that it holds to constants wherever it holds, and no
/// others: an equality under an alternative or a negation pins nothing.
pub proof fn what_is_pinned_is_held_to_a_constant(e: ExprModel, field: Seq<char>)
    ensures
        pinned(e).contains(field) <==> exists|part: ExprModel| #[trigger]
            conjunct_of(part, e) && pins_field(part, field),
    decreases e, 0int,
{
    match e {
        ExprModel::And(parts) => {
            assert(decreases_to!(e => parts));
            lemma_all_pinned(parts, field);
            if exists|i: int| 0 <= i < parts.len() && pinned(#[trigger] parts[i]).contains(field) {
                let i = choose|i: int|
                    0 <= i < parts.len() && pinned(#[trigger] parts[i]).contains(field);
                lemma_pinned_part(parts, field, i);
                let part = choose|part: ExprModel| #[trigger]
                    conjunct_of(part, parts[i]) && pins_field(part, field);
                assert(conjunct_of(part, e));
            }
            if exists|part: ExprModel| #[trigger] conjunct_of(part, e) && pins_field(part, field) {
                let part = choose|part: ExprModel| #[trigger]
                    conjunct_of(part, e) && pins_field(part, field);
                let i = choose|i: int| 0 <= i < parts.len() && conjunct_of(part, #[trigger] parts[i]);
                lemma_pinned_part(parts, field, i);
                assert(pinned(parts[i]).contains(field));
            }
        },
        ExprModel::Compare { op, lhs, rhs } => {
            if pins_field(e, field) {
                assert(conjunct_of(e, e));
                assert(pinned(e)[0] == field);
            }
            if pinned(e).contains(field) {
                let i = choose|i: int| 0 <= i < pinned(e).len() && pinned(e)[i] == field;
                assert(conjunct_of(e, e));
            }
        },
        _ => {},
    }
}

proof fn lemma_pinned_part(parts: Seq<ExprModel>, field: Seq<char>, i: int)
    requires
        0 <= i < parts.len(),
    ensures
        pinned(parts[i]).contains(field) <==> exists|part: ExprModel| #[trigger]
            conjunct_of(part, parts[i]) && pins_field(part, field),
    decreases parts, 1int,
{
    assert(decreases_to!(parts => parts[i]));
    what_is_pinned_is_held_to_a_constant(parts[i], field);
}

proof fn lemma_all_pinned(parts: Seq<ExprModel>, field: Seq<char>)
    ensures
        all_pinned(parts).contains(field) <==> exists|i: int|
            0 <= i < parts.len() && pinned(#[trigger] parts[i]).contains(field),
    decreases parts.len(),
{
    if parts.len() > 0 {
        let rest = parts.drop_first();
        lemma_all_pinned(rest, field);
        let (a, b) = (pinned(parts[0]), all_pinned(rest));
        let all = all_pinned(parts);
        if a.contains(field) {
            let k = choose|k: int| 0 <= k < a.len() && a[k] == field;
            assert(all[k] == field);
        }
        if b.contains(field) {
            let k = choose|k: int| 0 <= k < b.len() && b[k] == field;
            assert(all[a.len() + k] == field);
            let i = choose|i: int| 0 <= i < rest.len() && pinned(#[trigger] rest[i]).contains(field);
            assert(parts[i + 1] == rest[i]);
        }
        if all.contains(field) {
            let k = choose|k: int| 0 <= k < all.len() && all[k] == field;
            if k < a.len() {
                assert(a[k] == field);
            } else {
                assert(b[k - a.len()] == field);
            }
        }
        if exists|i: int| 0 <= i < parts.len() && pinned(#[trigger] parts[i]).contains(field) {
            let i = choose|i: int| 0 <= i < parts.len() && pinned(#[trigger] parts[i]).contains(field);
            if i > 0 {
                assert(rest[i - 1] == parts[i]);
            }
        }
    }
}

/// A predicate compares a field by order where a part that has to hold does.
pub proof fn what_is_ranged_over_is_bounded(e: ExprModel, field: Seq<char>)
    ensures
        ranged(e, field) <==> exists|part: ExprModel| #[trigger]
            conjunct_of(part, e) && bounds_field(part, field),
    decreases e,
{
    match e {
        ExprModel::And(parts) => {
            if ranged(e, field) {
                let i = choose|i: int| 0 <= i < parts.len() && ranged(#[trigger] parts[i], field);
                what_is_ranged_over_is_bounded(parts[i], field);
                let part = choose|part: ExprModel| #[trigger]
                    conjunct_of(part, parts[i]) && bounds_field(part, field);
                assert(conjunct_of(part, e));
            }
            if exists|part: ExprModel| #[trigger] conjunct_of(part, e) && bounds_field(part, field) {
                let part = choose|part: ExprModel| #[trigger]
                    conjunct_of(part, e) && bounds_field(part, field);
                let i = choose|i: int| 0 <= i < parts.len() && conjunct_of(part, #[trigger] parts[i]);
                what_is_ranged_over_is_bounded(parts[i], field);
                assert(ranged(parts[i], field));
            }
        },
        ExprModel::Compare { op, lhs, rhs } => {
            assert(conjunct_of(e, e));
        },
        _ => {},
    }
}

} // verus!
