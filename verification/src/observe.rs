//! What a query teaches about the fields it filters on and returns.
//!
//! Equality and range wants are told apart because they want different index
//! structures, and the fields that travel with a filter are reported beside it
//! because that is what a covering index has to carry.

use vstd::prelude::*;
use crate::expr::{
    mentioned, occurs_in, pinned, push_new, range_constrained, ranged,
    what_is_mentioned_stands_in_the_expression, Expr, ExprModel,
};
use crate::plan::{joins_in, LogicalOp, OpModel};
use crate::text::{
    contains_str, dup_strings, lemma_sorted_set, lemma_text_before_total, sort_dedup, sorted_set,
    str_eq, strictly_sorted, text_before, texts,
};

verus! {

/// One thing seen of a query.
#[derive(Debug, PartialEq, Eq)]
pub enum Observation {
    /// A field was filtered on, by equality or otherwise.
    FieldFiltered { field: String, equality: bool },
    /// Several fields were pinned by one predicate.
    FieldsPinnedTogether { fields: Vec<String> },
    /// These fields were returned by a query that filtered on another.
    FieldsProjectedTogether { filtered: String, fields: Vec<String>, equality: bool },
}

/// What an [`Observation`] says.
pub enum Note {
    FieldFiltered { field: Seq<char>, equality: bool },
    FieldsPinnedTogether { fields: Seq<Seq<char>> },
    FieldsProjectedTogether { filtered: Seq<char>, fields: Seq<Seq<char>>, equality: bool },
}

impl View for Observation {
    type V = Note;

    open spec fn view(&self) -> Note {
        match self {
            Observation::FieldFiltered { field, equality } => Note::FieldFiltered {
                field: field@,
                equality: *equality,
            },
            Observation::FieldsPinnedTogether { fields } => Note::FieldsPinnedTogether {
                fields: texts(fields@),
            },
            Observation::FieldsProjectedTogether {
                filtered,
                fields,
                equality,
            } => Note::FieldsProjectedTogether {
                filtered: filtered@,
                fields: texts(fields@),
                equality: *equality,
            },
        }
    }
}

/// What each observation says.
pub open spec fn notes(s: Seq<Observation>) -> Seq<Note> {
    s.map_values(|o: Observation| o@)
}

/// The fields a predicate pins, in order and each once: the order in which a
/// predicate was written does not matter to what it pins.
pub open spec fn pins(p: ExprModel) -> Seq<Seq<char>> {
    sorted_set(pinned(p))
}

/// What one filter says of each field it mentions, and of those it pins
/// together.
pub open spec fn filter_notes(p: ExprModel) -> Seq<Note> {
    let each = mentioned(p, Seq::empty()).map_values(
        |f: Seq<char>| Note::FieldFiltered { field: f, equality: pins(p).contains(f) },
    );
    if pins(p).len() > 1 {
        each.push(Note::FieldsPinnedTogether { fields: pins(p) })
    } else {
        each
    }
}

/// The fields of `names` that `p` compares by order without pinning, added to
/// `acc`.
pub open spec fn range_wants(
    p: ExprModel,
    names: Seq<Seq<char>>,
    acc: Seq<Seq<char>>,
) -> Seq<Seq<char>>
    decreases names.len(),
{
    if names.len() == 0 {
        acc
    } else {
        let f = names[0];
        let grown = if !pins(p).contains(f) && ranged(p, f) {
            push_new(acc, f)
        } else {
            acc
        };
        range_wants(p, names.drop_first(), grown)
    }
}

/// Everything gathered on the way down a plan.
pub struct Gathered {
    pub notes: Seq<Note>,
    pub equalities: Seq<Seq<char>>,
    pub ranges: Seq<Seq<char>>,
    pub projected: Seq<Seq<char>>,
}

/// What the operators of a plan, from the top, add to what was gathered.
pub open spec fn gathered(op: OpModel, g: Gathered) -> Gathered
    decreases op,
{
    match op {
        OpModel::Filter { input, predicate } => gathered(
            *input,
            Gathered {
                notes: g.notes + filter_notes(predicate),
                equalities: g.equalities + pins(predicate),
                ranges: range_wants(predicate, mentioned(predicate, Seq::empty()), g.ranges),
                projected: g.projected,
            },
        ),
        OpModel::Project { input, fields } => gathered(
            *input,
            Gathered { projected: g.projected + fields, ..g },
        ),
        OpModel::Sort { input, .. } => gathered(*input, g),
        OpModel::Limit { input, .. } => gathered(*input, g),
        OpModel::Aggregate { input, .. } => gathered(*input, g),
        _ => g,
    }
}

/// What the whole plan gathers.
pub open spec fn gathered_from(op: OpModel) -> Gathered {
    gathered(
        op,
        Gathered {
            notes: Seq::empty(),
            equalities: Seq::empty(),
            ranges: Seq::empty(),
            projected: Seq::empty(),
        },
    )
}

/// `s` without `x`.
pub open spec fn without(s: Seq<Seq<char>>, x: Seq<char>) -> Seq<Seq<char>>
    decreases s.len(),
{
    if s.len() == 0 {
        Seq::empty()
    } else if s.last() == x {
        without(s.drop_last(), x)
    } else {
        without(s.drop_last(), x).push(s.last())
    }
}

/// Every field that was filtered on by equality or by range, in order.
pub open spec fn filtered_fields(g: Gathered) -> Seq<Seq<char>> {
    sorted_set(g.equalities + g.ranges)
}

/// One note per filtered field: what was returned besides that field. A field
/// pinned by any filter counts as pinned.
pub open spec fn projection_notes(g: Gathered) -> Seq<Note> {
    filtered_fields(g).map_values(
        |f: Seq<char>|
            Note::FieldsProjectedTogether {
                filtered: f,
                fields: without(sorted_set(g.projected), f),
                equality: g.equalities.contains(f),
            },
    )
}

/// Everything a plan teaches.
pub open spec fn lessons(op: OpModel) -> Seq<Note> {
    let g = gathered_from(op);
    if g.projected.len() == 0 {
        g.notes
    } else {
        g.notes + projection_notes(g)
    }
}

fn drop_name(list: &Vec<String>, x: &str) -> (out: Vec<String>)
    ensures
        texts(out@) == without(texts(list@), x@),
{
    let ghost all = texts(list@);
    let mut out: Vec<String> = Vec::new();
    assert(texts(out@) =~= without(all.take(0), x@));
    let mut i: usize = 0;
    while i < list.len()
        invariant
            i <= list.len(),
            all == texts(list@),
            texts(out@) == without(all.take(i as int), x@),
        decreases list.len() - i,
    {
        let ghost held = out@;
        assert(all.take(i + 1).drop_last() =~= all.take(i as int));
        if !str_eq(list[i].as_str(), x) {
            out.push(list[i].clone());
            assert(texts(out@) =~= texts(held).push(all[i as int]));
        }
        i += 1;
    }
    assert(all.take(i as int) =~= all);
    out
}

fn note_filter(
    predicate: &Expr,
    out: &mut Vec<Observation>,
    equalities: &mut Vec<String>,
    ranges: &mut Vec<String>,
)
    ensures
        notes(final(out)@) == notes(old(out)@) + filter_notes(predicate.model()),
        texts(final(equalities)@) == texts(old(equalities)@) + pins(predicate.model()),
        texts(final(ranges)@) == range_wants(
            predicate.model(),
            mentioned(predicate.model(), Seq::empty()),
            texts(old(ranges)@),
        ),
{
    let ghost p = predicate.model();
    let mut raw: Vec<String> = Vec::new();
    predicate.equality_fields(&mut raw);
    assert(texts(raw@) =~= pinned(p));
    let pinned_here = sort_dedup(&raw);
    let mut all: Vec<String> = Vec::new();
    assert(texts(all@) =~= Seq::empty());
    predicate.referenced_fields(&mut all);
    let ghost names = mentioned(p, Seq::empty());
    let ghost before = notes(out@);
    let ghost each = names.map_values(
        |f: Seq<char>| Note::FieldFiltered { field: f, equality: pins(p).contains(f) },
    );
    let ghost want = range_wants(p, names, texts(ranges@));
    assert(names.skip(0) =~= names);
    assert(before + each.take(0) =~= before);
    let mut i: usize = 0;
    while i < all.len()
        invariant
            i <= all.len(),
            p == predicate.model(),
            names == texts(all@),
            texts(pinned_here@) == pins(p),
            each == names.map_values(
                |f: Seq<char>| Note::FieldFiltered { field: f, equality: pins(p).contains(f) },
            ),
            notes(out@) == before + each.take(i as int),
            range_wants(p, names.skip(i as int), texts(ranges@)) == want,
        decreases all.len() - i,
    {
        let ghost f = names[i as int];
        let ghost held = out@;
        let equality = contains_str(&pinned_here, all[i].as_str());
        assert(names.skip(i as int).drop_first() =~= names.skip(i + 1));
        if !equality && range_constrained(predicate, all[i].as_str()) {
            if !contains_str(ranges, all[i].as_str()) {
                let ghost held_ranges = ranges@;
                ranges.push(all[i].clone());
                assert(texts(ranges@) =~= texts(held_ranges).push(f));
            }
        }
        out.push(Observation::FieldFiltered { field: all[i].clone(), equality });
        assert(notes(out@) =~= notes(held).push(each[i as int]));
        assert(before + each.take(i + 1) =~= (before + each.take(i as int)).push(each[i as int]));
        i += 1;
    }
    assert(each.take(i as int) =~= each);
    assert(names.skip(i as int) =~= Seq::empty());
    if pinned_here.len() > 1 {
        let ghost held = out@;
        out.push(Observation::FieldsPinnedTogether { fields: dup_strings(&pinned_here) });
        assert(notes(out@) =~= notes(held).push(Note::FieldsPinnedTogether { fields: pins(p) }));
        assert(notes(out@) =~= before + filter_notes(p));
    }
    assert(pinned_here@.len() == texts(pinned_here@).len());
    append_strings(equalities, &pinned_here);
}

fn append_strings(out: &mut Vec<String>, more: &Vec<String>)
    ensures
        texts(final(out)@) == texts(old(out)@) + texts(more@),
{
    let ghost before = texts(out@);
    let ghost all = texts(more@);
    assert(before + all.take(0) =~= before);
    let mut i: usize = 0;
    while i < more.len()
        invariant
            i <= more.len(),
            all == texts(more@),
            texts(out@) == before + all.take(i as int),
        decreases more.len() - i,
    {
        let ghost held = out@;
        out.push(more[i].clone());
        assert(texts(out@) =~= texts(held).push(all[i as int]));
        assert(before + all.take(i + 1) =~= (before + all.take(i as int)).push(all[i as int]));
        i += 1;
    }
    assert(all.take(i as int) =~= all);
}

fn walk(
    op: &LogicalOp,
    out: &mut Vec<Observation>,
    equalities: &mut Vec<String>,
    ranges: &mut Vec<String>,
    projected: &mut Vec<String>,
)
    ensures
        (Gathered {
            notes: notes(final(out)@),
            equalities: texts(final(equalities)@),
            ranges: texts(final(ranges)@),
            projected: texts(final(projected)@),
        }) == gathered(
            op.model(),
            Gathered {
                notes: notes(old(out)@),
                equalities: texts(old(equalities)@),
                ranges: texts(old(ranges)@),
                projected: texts(old(projected)@),
            },
        ),
    decreases op,
{
    match op {
        LogicalOp::Filter { input, predicate } => {
            note_filter(predicate, out, equalities, ranges);
            walk(input, out, equalities, ranges, projected);
        },
        LogicalOp::Project { input, fields } => {
            append_strings(projected, fields);
            walk(input, out, equalities, ranges, projected);
        },
        LogicalOp::Sort { input, .. } => {
            walk(input, out, equalities, ranges, projected);
        },
        LogicalOp::Limit { input, .. } => {
            walk(input, out, equalities, ranges, projected);
        },
        LogicalOp::Aggregate { input, .. } => {
            walk(input, out, equalities, ranges, projected);
        },
        _ => {},
    }
}

/// Report which fields a query filtered on, and how, and which it returned
/// beside them.
pub fn note_filtered_fields(op: &LogicalOp) -> (out: Vec<Observation>)
    requires
        joins_in(op.model()) == 0,
    ensures
        notes(out@) == lessons(op.model()),
{
    let mut out: Vec<Observation> = Vec::new();
    let mut equalities: Vec<String> = Vec::new();
    let mut ranges: Vec<String> = Vec::new();
    let mut projected: Vec<String> = Vec::new();
    assert(notes(out@) =~= Seq::empty());
    assert(texts(equalities@) =~= Seq::empty());
    walk(op, &mut out, &mut equalities, &mut ranges, &mut projected);
    let ghost g = gathered_from(op.model());
    assert(notes(out@) == g.notes);
    if projected.len() == 0 {
        assert(texts(projected@).len() == 0);
        return out;
    }
    assert(texts(projected@).len() != 0);
    let returned = sort_dedup(&projected);
    let mut both: Vec<String> = dup_strings(&equalities);
    append_strings(&mut both, &ranges);
    let keys = sort_dedup(&both);
    let ghost before = notes(out@);
    let ghost each = projection_notes(g);
    assert(before + each.take(0) =~= before);
    let mut i: usize = 0;
    while i < keys.len()
        invariant
            i <= keys.len(),
            texts(keys@) == filtered_fields(g),
            texts(returned@) == sorted_set(g.projected),
            texts(equalities@) == g.equalities,
            each == projection_notes(g),
            notes(out@) == before + each.take(i as int),
        decreases keys.len() - i,
    {
        let ghost held = out@;
        let ghost f = texts(keys@)[i as int];
        let equality = contains_str(&equalities, keys[i].as_str());
        let fields = drop_name(&returned, keys[i].as_str());
        out.push(
            Observation::FieldsProjectedTogether { filtered: keys[i].clone(), fields, equality },
        );
        assert(notes(out@) =~= notes(held).push(each[i as int]));
        assert(before + each.take(i + 1) =~= (before + each.take(i as int)).push(each[i as int]));
        i += 1;
    }
    assert(each.take(i as int) =~= each);
    out
}

// -- what a plan teaches -----------------------------------------------------------

/// Whether a plan filters by a predicate, at any level.
pub open spec fn filters_by(op: OpModel, p: ExprModel) -> bool
    decreases op,
{
    match op {
        OpModel::Filter { input, predicate } => predicate == p || filters_by(*input, p),
        OpModel::Project { input, .. } => filters_by(*input, p),
        OpModel::Sort { input, .. } => filters_by(*input, p),
        OpModel::Limit { input, .. } => filters_by(*input, p),
        OpModel::Aggregate { input, .. } => filters_by(*input, p),
        _ => false,
    }
}

/// Whether a plan returns a field, at any level.
pub open spec fn returns_field(op: OpModel, f: Seq<char>) -> bool
    decreases op,
{
    match op {
        OpModel::Project { input, fields } => fields.contains(f) || returns_field(*input, f),
        OpModel::Filter { input, .. } => returns_field(*input, f),
        OpModel::Sort { input, .. } => returns_field(*input, f),
        OpModel::Limit { input, .. } => returns_field(*input, f),
        OpModel::Aggregate { input, .. } => returns_field(*input, f),
        _ => false,
    }
}

proof fn lemma_sum_contains<A>(a: Seq<A>, b: Seq<A>, x: A)
    ensures
        (a + b).contains(x) <==> a.contains(x) || b.contains(x),
{
    if a.contains(x) {
        let i = choose|i: int| 0 <= i < a.len() && a[i] == x;
        assert((a + b)[i] == x);
    }
    if b.contains(x) {
        let i = choose|i: int| 0 <= i < b.len() && b[i] == x;
        assert((a + b)[a.len() + i] == x);
    }
    if (a + b).contains(x) {
        let i = choose|i: int| 0 <= i < (a + b).len() && (a + b)[i] == x;
        if i < a.len() {
            assert(a[i] == x);
        } else {
            assert(b[i - a.len()] == x);
        }
    }
}

proof fn lemma_range_wants(
    p: ExprModel,
    names: Seq<Seq<char>>,
    acc: Seq<Seq<char>>,
    f: Seq<char>,
)
    ensures
        range_wants(p, names, acc).contains(f) <==> acc.contains(f) || (names.contains(f) && !pins(
            p,
        ).contains(f) && ranged(p, f)),
    decreases names.len(),
{
    if names.len() > 0 {
        let g = names[0];
        let grown = if !pins(p).contains(g) && ranged(p, g) {
            push_new(acc, g)
        } else {
            acc
        };
        lemma_range_wants(p, names.drop_first(), grown, f);
        let rest = names.drop_first();
        if !acc.contains(g) {
            assert(acc.push(g)[acc.len() as int] == g);
        }
        if acc.contains(f) {
            let i = choose|i: int| 0 <= i < acc.len() && acc[i] == f;
            assert(acc.push(g)[i] == f);
        }
        if names.contains(f) {
            let i = choose|i: int| 0 <= i < names.len() && names[i] == f;
            if i > 0 {
                assert(rest[i - 1] == f);
            }
        }
        if rest.contains(f) {
            let i = choose|i: int| 0 <= i < rest.len() && rest[i] == f;
            assert(names[i + 1] == f);
        }
    }
}

/// Whether some filter of a plan pins a field.
pub open spec fn pinned_somewhere(op: OpModel, f: Seq<char>) -> bool {
    exists|p: ExprModel| #[trigger] filters_by(op, p) && pinned(p).contains(f)
}

/// Whether some filter of a plan compares a field by order without pinning it.
pub open spec fn ranged_somewhere(op: OpModel, f: Seq<char>) -> bool {
    exists|p: ExprModel| #[trigger] filters_by(op, p) && ranged(p, f) && !pinned(p).contains(f)
}

proof fn lemma_gathered(op: OpModel, g: Gathered, f: Seq<char>, n: Note)
    ensures
        ({
            let h = gathered(op, g);
            &&& h.notes.contains(n) <==> g.notes.contains(n) || exists|p: ExprModel| #[trigger]
                filters_by(op, p) && filter_notes(p).contains(n)
            &&& h.equalities.contains(f) <==> g.equalities.contains(f) || pinned_somewhere(op, f)
            &&& h.ranges.contains(f) <==> g.ranges.contains(f) || ranged_somewhere(op, f)
            &&& h.projected.contains(f) <==> g.projected.contains(f) || returns_field(op, f)
            &&& h.projected.len() >= g.projected.len()
        }),
    decreases op,
{
    match op {
        OpModel::Filter { input, predicate } => {
            let next = Gathered {
                notes: g.notes + filter_notes(predicate),
                equalities: g.equalities + pins(predicate),
                ranges: range_wants(predicate, mentioned(predicate, Seq::empty()), g.ranges),
                projected: g.projected,
            };
            lemma_gathered(*input, next, f, n);
            lemma_sum_contains(g.notes, filter_notes(predicate), n);
            lemma_sum_contains(g.equalities, pins(predicate), f);
            lemma_sorted_set(pinned(predicate));
            lemma_range_wants(predicate, mentioned(predicate, Seq::empty()), g.ranges, f);
            what_is_mentioned_stands_in_the_expression(predicate, Seq::empty(), f);
            if ranged(predicate, f) {
                lemma_ranged_occurs(predicate, f);
            }
            assert(filters_by(op, predicate));
            assert forall|p: ExprModel| filters_by(op, p) <==> p == predicate || #[trigger] filters_by(
                *input,
                p,
            ) by {}
            lemma_somewhere(op, *input, predicate, f, n);
        },
        OpModel::Project { input, fields } => {
            lemma_gathered(*input, Gathered { projected: g.projected + fields, ..g }, f, n);
            lemma_sum_contains(g.projected, fields, f);
            lemma_same_filters(op, *input, f, n);
        },
        OpModel::Sort { input, .. } => {
            lemma_gathered(*input, g, f, n);
            lemma_same_filters(op, *input, f, n);
        },
        OpModel::Limit { input, .. } => {
            lemma_gathered(*input, g, f, n);
            lemma_same_filters(op, *input, f, n);
        },
        OpModel::Aggregate { input, .. } => {
            lemma_gathered(*input, g, f, n);
            lemma_same_filters(op, *input, f, n);
        },
        _ => {},
    }
}

proof fn lemma_ranged_occurs(e: ExprModel, f: Seq<char>)
    requires
        ranged(e, f),
    ensures
        occurs_in(ExprModel::Field(f), e),
    decreases e,
{
    match e {
        ExprModel::Compare { op, lhs, rhs } => {
            assert(occurs_in(ExprModel::Field(f), *lhs));
        },
        ExprModel::And(parts) => {
            let i = choose|i: int| 0 <= i < parts.len() && ranged(#[trigger] parts[i], f);
            lemma_ranged_occurs(parts[i], f);
            assert(occurs_in(ExprModel::Field(f), parts[i]));
        },
        _ => {},
    }
}

proof fn lemma_same_filters(op: OpModel, input: OpModel, f: Seq<char>, n: Note)
    requires
        forall|p: ExprModel|
            #![trigger filters_by(op, p)]
            #![trigger filters_by(input, p)]
            filters_by(op, p) == filters_by(input, p),
    ensures
        pinned_somewhere(op, f) == pinned_somewhere(input, f),
        ranged_somewhere(op, f) == ranged_somewhere(input, f),
        (exists|p: ExprModel| #[trigger] filters_by(op, p) && filter_notes(p).contains(n)) == (exists|
            p: ExprModel,
        | #[trigger]
            filters_by(input, p) && filter_notes(p).contains(n)),
{
    if pinned_somewhere(op, f) {
        let p = choose|p: ExprModel| #[trigger] filters_by(op, p) && pinned(p).contains(f);
        assert(filters_by(input, p));
    }
    if ranged_somewhere(op, f) {
        let p = choose|p: ExprModel| #[trigger]
            filters_by(op, p) && ranged(p, f) && !pinned(p).contains(f);
        assert(filters_by(input, p));
    }
    if exists|p: ExprModel| #[trigger] filters_by(op, p) && filter_notes(p).contains(n) {
        let p = choose|p: ExprModel| #[trigger] filters_by(op, p) && filter_notes(p).contains(n);
        assert(filters_by(input, p));
    }
}

proof fn lemma_somewhere(op: OpModel, input: OpModel, q: ExprModel, f: Seq<char>, n: Note)
    requires
        forall|p: ExprModel|
            #![trigger filters_by(op, p)]
            #![trigger filters_by(input, p)]
            filters_by(op, p) <==> p == q || filters_by(input, p),
    ensures
        pinned_somewhere(op, f) <==> pinned(q).contains(f) || pinned_somewhere(input, f),
        ranged_somewhere(op, f) <==> (ranged(q, f) && !pinned(q).contains(f)) || ranged_somewhere(
            input,
            f,
        ),
        (exists|p: ExprModel| #[trigger] filters_by(op, p) && filter_notes(p).contains(n))
            <==> filter_notes(q).contains(n) || (exists|p: ExprModel| #[trigger]
            filters_by(input, p) && filter_notes(p).contains(n)),
{
    assert(filters_by(op, q));
    if pinned_somewhere(op, f) {
        let p = choose|p: ExprModel| #[trigger] filters_by(op, p) && pinned(p).contains(f);
        assert(p == q || filters_by(input, p));
    }
    if ranged_somewhere(op, f) {
        let p = choose|p: ExprModel| #[trigger]
            filters_by(op, p) && ranged(p, f) && !pinned(p).contains(f);
        assert(p == q || filters_by(input, p));
    }
    if exists|p: ExprModel| #[trigger] filters_by(op, p) && filter_notes(p).contains(n) {
        let p = choose|p: ExprModel| #[trigger] filters_by(op, p) && filter_notes(p).contains(n);
        assert(p == q || filters_by(input, p));
    }
    if pinned_somewhere(input, f) {
        let p = choose|p: ExprModel| #[trigger] filters_by(input, p) && pinned(p).contains(f);
        assert(filters_by(op, p));
    }
    if ranged_somewhere(input, f) {
        let p = choose|p: ExprModel| #[trigger]
            filters_by(input, p) && ranged(p, f) && !pinned(p).contains(f);
        assert(filters_by(op, p));
    }
    if exists|p: ExprModel| #[trigger] filters_by(input, p) && filter_notes(p).contains(n) {
        let p = choose|p: ExprModel| #[trigger] filters_by(input, p) && filter_notes(p).contains(n);
        assert(filters_by(op, p));
    }
}

proof fn lemma_filter_notes(p: ExprModel, n: Note)
    ensures
        filter_notes(p).contains(n) <==> match n {
            Note::FieldFiltered { field, equality } => occurs_in(ExprModel::Field(field), p) && equality
                == pinned(p).contains(field),
            Note::FieldsPinnedTogether { fields } => fields == pins(p) && fields.len() > 1,
            _ => false,
        },
{
    let names = mentioned(p, Seq::empty());
    let each = names.map_values(
        |f: Seq<char>| Note::FieldFiltered { field: f, equality: pins(p).contains(f) },
    );
    let all = filter_notes(p);
    lemma_sorted_set(pinned(p));
    if let Note::FieldFiltered { field, equality } = n {
        what_is_mentioned_stands_in_the_expression(p, Seq::empty(), field);
        if names.contains(field) && equality == pinned(p).contains(field) {
            let i = choose|i: int| 0 <= i < names.len() && names[i] == field;
            assert(each[i] == n);
            assert(all[i] == n);
        }
    }
    if all.contains(n) {
        let i = choose|i: int| 0 <= i < all.len() && all[i] == n;
        if i < names.len() {
            assert(all[i] == each[i]);
            assert(names.contains(names[i]));
        }
    }
    if pins(p).len() > 1 {
        assert(all[names.len() as int] == Note::FieldsPinnedTogether { fields: pins(p) });
    }
}

/// What a plan teaches. Of every field that a filter mentions, that it was filtered on, and
/// whether by equality; of every filter that pins several fields, which they are, in
/// order. And where the plan says what to return, of every field that was filtered on by
/// equality or range, what was returned besides. It teaches nothing else.
pub proof fn a_plan_teaches_what_it_filters_on_and_returns(op: OpModel, n: Note)
    ensures
        lessons(op).contains(n) <==> match n {
            Note::FieldFiltered { field, equality } => exists|p: ExprModel| #[trigger]
                filters_by(op, p) && occurs_in(ExprModel::Field(field), p) && equality == pinned(
                    p,
                ).contains(field),
            Note::FieldsPinnedTogether { fields } => exists|p: ExprModel| #[trigger]
                filters_by(op, p) && fields == sorted_set(pinned(p)) && fields.len() > 1,
            Note::FieldsProjectedTogether { filtered, fields, equality } => {
                &&& exists|f: Seq<char>| #[trigger] returns_field(op, f)
                &&& pinned_somewhere(op, filtered) || ranged_somewhere(op, filtered)
                &&& equality == pinned_somewhere(op, filtered)
                &&& strictly_sorted(fields)
                &&& forall|f: Seq<char>| #[trigger]
                    fields.contains(f) <==> f != filtered && returns_field(op, f)
            },
        },
{
    let none = Gathered {
        notes: Seq::empty(),
        equalities: Seq::empty(),
        ranges: Seq::empty(),
        projected: Seq::empty(),
    };
    let g = gathered(op, none);
    lemma_gathered(op, none, Seq::empty(), n);
    assert forall|p: ExprModel| #[trigger] filters_by(op, p) implies filter_notes(p).contains(n)
        == match n {
        Note::FieldFiltered { field, equality } => occurs_in(ExprModel::Field(field), p) && equality
            == pinned(p).contains(field),
        Note::FieldsPinnedTogether { fields } => fields == pins(p) && fields.len() > 1,
        _ => false,
    } by {
        lemma_filter_notes(p, n);
    }
    let told = projection_notes(g);
    lemma_sum_contains(g.notes, told, n);
    assert(g.projected.len() > 0 <==> exists|f: Seq<char>| #[trigger] returns_field(op, f)) by {
        if g.projected.len() > 0 {
            let f = g.projected[0];
            lemma_gathered(op, none, f, n);
            assert(g.projected.contains(f));
        }
        if exists|f: Seq<char>| #[trigger] returns_field(op, f) {
            let f = choose|f: Seq<char>| #[trigger] returns_field(op, f);
            lemma_gathered(op, none, f, n);
        }
    }
    let names = filtered_fields(g);
    lemma_sorted_set(g.equalities + g.ranges);
    lemma_sorted_set(g.projected);
    if let Note::FieldsProjectedTogether { filtered, fields, equality } = n {
        assert(!g.notes.contains(n));
        lemma_gathered(op, none, filtered, n);
        lemma_sum_contains(g.equalities, g.ranges, filtered);
        lemma_without(sorted_set(g.projected), filtered);
        assert forall|f: Seq<char>| #[trigger] without(sorted_set(g.projected), filtered).contains(f)
            <==> f != filtered && returns_field(op, f) by {
            lemma_gathered(op, none, f, n);
        }
        if told.contains(n) {
            let i = choose|i: int| 0 <= i < told.len() && told[i] == n;
            assert(names[i] == filtered);
            assert(names.contains(filtered));
        }
        if names.contains(filtered) && equality == g.equalities.contains(filtered)
            && strictly_sorted(fields) && (forall|f: Seq<char>| #[trigger]
            fields.contains(f) <==> f != filtered && returns_field(op, f)) {
            let i = choose|i: int| 0 <= i < names.len() && names[i] == filtered;
            let own = without(sorted_set(g.projected), filtered);
            lemma_one_listing(fields, own);
            assert(told[i] == n);
        }
    } else {
        assert(!told.contains(n));
        if told.contains(n) {
            let i = choose|i: int| 0 <= i < told.len() && told[i] == n;
        }
    }
}

proof fn lemma_without(s: Seq<Seq<char>>, x: Seq<char>)
    requires
        strictly_sorted(s),
    ensures
        strictly_sorted(without(s, x)),
        forall|y: Seq<char>| #[trigger] without(s, x).contains(y) <==> s.contains(y) && y != x,
    decreases s.len(),
{
    if s.len() > 0 {
        let rest = s.drop_last();
        assert forall|i: int, j: int|
            #![trigger rest[i], rest[j]]
            0 <= i < j < rest.len() implies text_before(rest[i], rest[j]) by {
            assert(rest[i] == s[i] && rest[j] == s[j]);
        }
        lemma_without(rest, x);
        let before = without(rest, x);
        let all = without(s, x);
        assert forall|y: Seq<char>| #[trigger] all.contains(y) <==> s.contains(y) && y != x by {
            assert(s.contains(y) <==> rest.contains(y) || y == s.last()) by {
                if s.contains(y) {
                    let i = choose|i: int| 0 <= i < s.len() && s[i] == y;
                    if i < rest.len() {
                        assert(rest[i] == y);
                    }
                }
                if rest.contains(y) {
                    let i = choose|i: int| 0 <= i < rest.len() && rest[i] == y;
                    assert(s[i] == y);
                }
                assert(s[s.len() - 1] == s.last());
            }
            if s.last() != x {
                lemma_sum_contains(before, seq![s.last()], y);
                assert(all =~= before + seq![s.last()]);
                assert(seq![s.last()].contains(y) <==> y == s.last()) by {
                    assert(seq![s.last()][0] == s.last());
                }
            }
        }
        if s.last() != x {
            assert forall|i: int, j: int|
                #![trigger all[i], all[j]]
                0 <= i < j < all.len() implies text_before(all[i], all[j]) by {
                if j < before.len() {
                    assert(all[i] == before[i] && all[j] == before[j]);
                } else {
                    assert(all[i] == before[i]);
                    assert(before.contains(before[i]));
                    let k = choose|k: int| 0 <= k < rest.len() && rest[k] == before[i];
                    assert(s[k] == all[i]);
                    assert(text_before(s[k], s[s.len() - 1]));
                }
            }
        }
    }
}

proof fn lemma_one_listing(a: Seq<Seq<char>>, b: Seq<Seq<char>>)
    requires
        strictly_sorted(a),
        strictly_sorted(b),
        forall|x: Seq<char>|
            #![trigger a.contains(x)]
            #![trigger b.contains(x)]
            a.contains(x) <==> b.contains(x),
    ensures
        a == b,
    decreases a.len(),
{
    if a.len() == 0 {
        if b.len() > 0 {
            assert(b.contains(b[0]));
        }
        assert(a =~= b);
    } else {
        assert(a.contains(a[a.len() - 1]));
        assert(b.len() > 0);
        assert(b.contains(b[b.len() - 1]));
        let (x, y) = (a.last(), b.last());
        let i = choose|i: int| 0 <= i < b.len() && b[i] == x;
        let j = choose|j: int| 0 <= j < a.len() && a[j] == y;
        lemma_text_before_total(x, y);
        if x != y {
            assert(i < b.len() - 1);
            assert(j < a.len() - 1);
            assert(text_before(b[i], b[b.len() - 1]));
            assert(text_before(a[j], a[a.len() - 1]));
        }
        let (p, q) = (a.drop_last(), b.drop_last());
        assert forall|m: int, n: int| #![trigger p[m], p[n]] 0 <= m < n < p.len() implies text_before(
            p[m],
            p[n],
        ) by {
            assert(p[m] == a[m] && p[n] == a[n]);
        }
        assert forall|m: int, n: int| #![trigger q[m], q[n]] 0 <= m < n < q.len() implies text_before(
            q[m],
            q[n],
        ) by {
            assert(q[m] == b[m] && q[n] == b[n]);
        }
        assert forall|z: Seq<char>|
            #![trigger p.contains(z)]
            #![trigger q.contains(z)]
            p.contains(z) <==> q.contains(z) by {
            lemma_text_before_total(x, x);
            if p.contains(z) {
                let m = choose|m: int| 0 <= m < p.len() && p[m] == z;
                assert(a[m] == z);
                assert(text_before(a[m], a[a.len() - 1]));
                assert(b.contains(z));
                let n = choose|n: int| 0 <= n < b.len() && b[n] == z;
                assert(n < b.len() - 1);
                assert(q[n] == z);
            }
            if q.contains(z) {
                let m = choose|m: int| 0 <= m < q.len() && q[m] == z;
                assert(b[m] == z);
                assert(text_before(b[m], b[b.len() - 1]));
                assert(a.contains(z));
                let n = choose|n: int| 0 <= n < a.len() && a[n] == z;
                assert(n < a.len() - 1);
                assert(p[n] == z);
            }
        }
        lemma_one_listing(p, q);
        assert(a =~= p.push(x));
        assert(b =~= q.push(y));
    }
}

} // verus!
