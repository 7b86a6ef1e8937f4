//! Indexes that go and come back.
//!
//! An index is known by its collection, its name and its kind. Making one and dropping
//! it leaves those there were; and a database opened again from its definitions and its
//! saved constraints has the indexes and the constraints it had.

use vstd::prelude::*;
use vstd::relations::sorted_by;
use vstd::seq_lib::{lemma_multiset_commutative, lemma_sorted_unique};
use crate::action::{kind_text, IndexKind};
use crate::assoc::lemma_find_some;
use crate::derived::{agrees_with, all_ordered, index_models, Derived};
use crate::error::Error;
use crate::expr::Expr;
use crate::exprcodec::{
    expr_bytes, hex_char, hex_decoding_inverts_hex_encoding, hex_text, levels_allowed, writable, Fault,
};
use crate::index::{
    cached_entries_read_back_or_not_at_all, entries_bytes, evaluates, faithful, index_ok, key_under,
    shape_name, sized, Group, Index, IndexModel, Keeps, Records, ShapeModel,
};
use crate::indexing::{
    a_restored_index_holds_what_was_cached, exists_index, index_outcome, is_index, lemma_spec_order,
    only_indexes, shape_named, spec_before, specs_in, specs_ordered, without_index, SpecModel,
};
use crate::managing::{making_an_index_keeps_agreement, one_more};
use crate::names::{
    a_name_says_what_it_names, cut, lemma_joined_chars, lemma_pieces_nonempty, lemma_separators,
    pieces, plain, COMPOSITE_SEP, COVER_SEP, PARTIAL_SEP,
};
use crate::opening::{
    all_indexes, all_saved, cache_key, cached_under, groups_of, only_place, saved_as,
};
use crate::planning::names_and_kinds;
use crate::record::Record;
use crate::rows::{ascending, RowsModel};
use crate::strmap::{lemma_named_at, lemma_names_distinct, names_ascend};
use crate::text::{joined, lemma_text_before_total};
use crate::unique::{reading_inverts_writing, saveable, saved_bytes, saved_pairs, Pair};
use crate::value::ValueModel;
use crate::verify::{
    an_agreeing_state_is_clean, collection_problems, records_of, well_named, DivergenceModel,
};

verus! {

// -- names ----------------------------------------------------------------------------

proof fn lemma_joined_again(s: Seq<char>, c: char, sep: Seq<char>)
    requires
        sep == seq![c],
    ensures
        joined(pieces(s, c), sep) == s,
    decreases s.len(),
{
    let all = pieces(s, c);
    if s.len() == 0 {
        assert(s =~= Seq::empty());
    } else {
        let rest = s.drop_last();
        let before = pieces(rest, c);
        lemma_pieces_nonempty(rest, c);
        lemma_joined_again(rest, c, sep);
        if s.last() == c {
            assert(all.drop_last() =~= before);
            assert(joined(all, sep) =~= s);
        } else {
            let grown = before.last().push(s.last());
            assert(all == before.drop_last().push(grown));
            assert(all.drop_last() =~= before.drop_last());
            if before.len() == 1 {
                assert(before[0] == before.last());
                assert(joined(all, sep) =~= s);
            } else {
                assert(joined(all, sep) =~= joined(before, sep).push(s.last()));
                assert(joined(all, sep) =~= s);
            }
        }
    }
}

proof fn lemma_cut_again(s: Seq<char>, c: char)
    requires
        s.contains(c),
    ensures
        cut(s, c).0.push(c) + cut(s, c).1 == s,
    decreases s.len(),
{
    if s[0] == c {
        assert(cut(s, c).0.push(c) + cut(s, c).1 =~= s);
    } else {
        let rest = s.drop_first();
        let i = choose|i: int| 0 <= i < s.len() && s[i] == c;
        assert(rest[i - 1] == c);
        lemma_cut_again(rest, c);
        let (a, b) = cut(rest, c);
        assert((seq![s[0]] + a).push(c) + b =~= seq![s[0]] + (a.push(c) + b));
        assert(seq![s[0]] + rest =~= s);
    }
}

/// The index a name asks for goes by that name.
pub proof fn an_index_goes_by_the_name_it_was_asked_by(name: Seq<char>)
    ensures
        shape_named(name) matches Ok(shape) ==> shape_name(shape) == name,
{
    lemma_separators();
    if name.contains(PARTIAL_SEP) {
        lemma_cut_again(name, PARTIAL_SEP);
        let (a, b) = cut(name, PARTIAL_SEP);
        assert(a + "\u{2}"@ + b =~= a.push(PARTIAL_SEP) + b);
    } else if name.contains(COVER_SEP) {
        lemma_cut_again(name, COVER_SEP);
        let (a, b) = cut(name, COVER_SEP);
        lemma_joined_again(b, COMPOSITE_SEP, "\u{0}"@);
        assert(a + "\u{1}"@ + b =~= a.push(COVER_SEP) + b);
    } else if name.contains(COMPOSITE_SEP) {
        lemma_joined_again(name, COMPOSITE_SEP, "\u{0}"@);
    }
}

// -- specs ----------------------------------------------------------------------------

/// The specs of the indexes of a collection.
pub open spec fn specs_on(c: Seq<char>, s: Seq<IndexModel>) -> Seq<SpecModel> {
    s.map_values(|m: IndexModel| (c, shape_name(m.shape), m.kind))
}

/// The specs of everything there is.
pub open spec fn specs_of(d: Derived) -> Seq<SpecModel> {
    specs_in(d.indexes.entries(), d.indexes.entries().len() as int)
}

proof fn lemma_specs_count(e: Seq<(Seq<char>, Vec<Index>)>, n: int, x: SpecModel, at: int)
    requires
        names_ascend(e),
        0 <= n <= e.len(),
        0 <= at <= e.len(),
        at < e.len() ==> e[at].0 == x.0,
        at == e.len() ==> forall|i: int| 0 <= i < e.len() ==> (#[trigger] e[i]).0 != x.0,
    ensures
        specs_in(e, n).to_multiset().count(x) == if at < n {
            specs_on(x.0, index_models(e[at].1@)).to_multiset().count(x)
        } else {
            0
        },
    decreases n,
{
    if n > 0 {
        lemma_specs_count(e, n - 1, x, at);
        let own = specs_on(e[n - 1].0, index_models(e[n - 1].1@));
        assert(specs_in(e, n) =~= specs_in(e, n - 1) + own);
        lemma_multiset_commutative(specs_in(e, n - 1), own);
        if n - 1 != at {
            lemma_names_distinct(e);
            assert(e[n - 1].0 != x.0) by {
                if at < n - 1 {
                    assert(e[at].0 != e[n - 1].0);
                } else if at < e.len() {
                    assert(e[n - 1].0 != e[at].0);
                }
            }
            own.to_multiset_ensures();
            assert(!own.contains(x));
        }
    } else {
        specs_in(e, 0).to_multiset_ensures();
        assert(specs_in(e, 0) =~= Seq::empty());
        assert(!specs_in(e, 0).contains(x));
    }
}

/// How often a spec occurs is told by the indexes of its collection alone.
proof fn lemma_specs_by_collection(d: Derived, x: SpecModel)
    requires
        d.indexes.wf(),
    ensures
        specs_of(d).to_multiset().count(x) == specs_on(x.0, d.indexes_of(x.0)).to_multiset().count(
            x,
        ),
{
    let e = d.indexes.entries();
    if exists|i: int| 0 <= i < e.len() && (#[trigger] e[i]).0 == x.0 {
        let at = choose|i: int| 0 <= i < e.len() && (#[trigger] e[i]).0 == x.0;
        lemma_named_at(e, at);
        lemma_specs_count(e, e.len() as int, x, at);
    } else {
        lemma_specs_count(e, e.len() as int, x, e.len() as int);
        crate::assoc::lemma_find_absent(e, x.0);
        let none = specs_on(x.0, d.indexes_of(x.0));
        none.to_multiset_ensures();
        assert(!none.contains(x));
    }
}

/// Whether two states have the same indexes by name and kind, collection by
/// collection.
pub open spec fn same_specs(a: Derived, b: Derived) -> bool {
    forall|c: Seq<char>| #[trigger]
        names_and_kinds(a.indexes_of(c)) == names_and_kinds(b.indexes_of(c))
}

proof fn lemma_same_specs(a: Derived, b: Derived)
    requires
        a.indexes.wf(),
        b.indexes.wf(),
        same_specs(a, b),
    ensures
        specs_of(a).to_multiset() == specs_of(b).to_multiset(),
{
    assert forall|x: SpecModel| specs_of(a).to_multiset().count(x) == specs_of(
        b,
    ).to_multiset().count(x) by {
        lemma_specs_by_collection(a, x);
        lemma_specs_by_collection(b, x);
        let (s, t) = (a.indexes_of(x.0), b.indexes_of(x.0));
        assert(names_and_kinds(s) == names_and_kinds(t));
        assert(s.len() == names_and_kinds(s).len() && t.len() == names_and_kinds(t).len());
        assert forall|i: int| 0 <= i < s.len() implies #[trigger] specs_on(x.0, s)[i] == specs_on(
            x.0,
            t,
        )[i] by {
            assert(names_and_kinds(s)[i] == names_and_kinds(t)[i]);
        }
        assert(specs_on(x.0, s) =~= specs_on(x.0, t));
    }
    assert(specs_of(a).to_multiset() =~= specs_of(b).to_multiset());
}

proof fn lemma_kind_texts(a: IndexKind, b: IndexKind)
    ensures
        kind_text(a) == kind_text(b) ==> a == b,
{
    crate::action::kinds_round_trip(a);
    crate::action::kinds_round_trip(b);
}

/// Specs in order are listed in one way only.
proof fn lemma_one_listing(x: Seq<SpecModel>, y: Seq<SpecModel>)
    requires
        specs_ordered(x),
        specs_ordered(y),
        x.to_multiset() == y.to_multiset(),
    ensures
        x == y,
{
    let leq = |a: SpecModel, b: SpecModel| !spec_before(b, a);
    assert forall|a: SpecModel| #[trigger] leq(a, a) by {
        lemma_spec_order(a, a, a);
    }
    assert forall|a: SpecModel, b: SpecModel| #[trigger] leq(a, b) && #[trigger] leq(b, a) implies a
        == b by {
        lemma_text_before_total(a.0, b.0);
        lemma_text_before_total(a.1, b.1);
        lemma_text_before_total(kind_text(a.2), kind_text(b.2));
        lemma_kind_texts(a.2, b.2);
    }
    assert forall|a: SpecModel, b: SpecModel, c: SpecModel| #[trigger] leq(a, b) && #[trigger] leq(
        b,
        c,
    ) implies leq(a, c) by {
        lemma_spec_order(a, b, c);
    }
    assert forall|a: SpecModel, b: SpecModel| #[trigger] leq(a, b) || #[trigger] leq(b, a) by {
        lemma_spec_order(a, b, a);
    }
    assert(sorted_by(x, leq));
    assert(sorted_by(y, leq));
    lemma_sorted_unique(x, y, leq);
}

// -- making and dropping --------------------------------------------------------------

proof fn lemma_nothing_to_drop(s: Seq<IndexModel>, name: Seq<char>, kind: IndexKind)
    requires
        !exists_index(s, name, kind),
    ensures
        without_index(s, name, kind) == s,
    decreases s.len(),
{
    if s.len() > 0 {
        let rest = s.drop_last();
        assert(!exists_index(rest, name, kind)) by {
            if exists_index(rest, name, kind) {
                let i = choose|i: int|
                    0 <= i < rest.len() && is_index(#[trigger] rest[i], name, kind);
                assert(is_index(s[i], name, kind));
            }
        }
        assert(!is_index(s[s.len() - 1], name, kind));
        lemma_nothing_to_drop(rest, name, kind);
        assert(rest.push(s.last()) =~= s);
    }
}

/// Making an index and dropping it leaves the indexes there were: each collection has
/// the very ones it had, and listing them gives what it gave.
pub proof fn making_and_dropping_an_index_leaves_what_there_was<E: Fn(&Expr, &Record) -> bool>(
    a: Derived,
    b: Derived,
    z: Derived,
    c: Seq<char>,
    name: Seq<char>,
    kind: IndexKind,
    cached: Option<Seq<Group>>,
    rows: RowsModel,
    eval: E,
    before: Seq<SpecModel>,
    after: Seq<SpecModel>,
)
    requires
        a.indexes.wf(),
        z.indexes.wf(),
        index_outcome(a, b, Ok::<bool, Error>(true), c, true, name, kind, cached, rows, eval),
        only_indexes(b, z, c),
        z.indexes_of(c) == without_index(b.indexes_of(c), name, kind),
        specs_ordered(before),
        before.to_multiset() == specs_of(a).to_multiset(),
        specs_ordered(after),
        after.to_multiset() == specs_of(z).to_multiset(),
    ensures
        forall|o: Seq<char>| #[trigger] z.indexes_of(o) == a.indexes_of(o),
        after == before,
{
    an_index_goes_by_the_name_it_was_asked_by(name);
    let s = a.indexes_of(c);
    let new = b.indexes_of(c).last();
    assert(b.indexes_of(c) == s.push(new));
    assert(is_index(new, name, kind));
    assert(s.push(new).drop_last() =~= s);
    lemma_nothing_to_drop(s, name, kind);
    assert forall|o: Seq<char>| #[trigger] z.indexes_of(o) == a.indexes_of(o) by {
        if o != c {
            assert(z.indexes_of(o) == b.indexes_of(o));
            assert(b.indexes_of(o) == a.indexes_of(o));
        }
    }
    assert(same_specs(a, z));
    lemma_same_specs(a, z);
    lemma_one_listing(before, after);
}

// -- opening again --------------------------------------------------------------------

/// The definitions of a collection's indexes, in order.
pub open spec fn definitions_on(defs: Seq<SpecModel>, c: Seq<char>) -> Seq<(Seq<char>, IndexKind)>
    decreases defs.len(),
{
    if defs.len() == 0 {
        Seq::empty()
    } else if defs.last().0 == c {
        definitions_on(defs.drop_last(), c).push((defs.last().1, defs.last().2))
    } else {
        definitions_on(defs.drop_last(), c)
    }
}

/// Whether states follow each other by bringing the indexes of definitions back in
/// turn, each from its cached entries or from the rows of its collection.
pub open spec fn brought_back<E: Fn(&Expr, &Record) -> bool>(
    states: Seq<Derived>,
    defs: Seq<SpecModel>,
    cached: Seq<Option<Seq<Group>>>,
    rows: Seq<RowsModel>,
    results: Seq<Result<bool, Error>>,
    eval: E,
) -> bool {
    &&& states.len() == defs.len() + 1
    &&& forall|c: Seq<char>| (#[trigger] states[0].indexes_of(c)).len() == 0
    &&& forall|i: int|
        0 <= i < defs.len() ==> index_outcome(
            #[trigger] states[i],
            states[i + 1],
            results[i],
            defs[i].0,
            true,
            defs[i].1,
            defs[i].2,
            cached[i],
            rows[i],
            eval,
        )
}

proof fn lemma_defined_before(defs: Seq<SpecModel>, c: Seq<char>, k: int)
    requires
        0 <= k < definitions_on(defs, c).len(),
    ensures
        exists|i: int|
            0 <= i < defs.len() && #[trigger] defs[i] == (
                c,
                definitions_on(defs, c)[k].0,
                definitions_on(defs, c)[k].1,
            ),
    decreases defs.len(),
{
    let rest = defs.drop_last();
    let x = (c, definitions_on(defs, c)[k].0, definitions_on(defs, c)[k].1);
    if k < definitions_on(rest, c).len() {
        lemma_defined_before(rest, c, k);
        let i = choose|i: int| 0 <= i < rest.len() && #[trigger] rest[i] == x;
        assert(defs[i] == x);
    } else {
        assert(defs[defs.len() - 1] == x);
    }
}

proof fn lemma_brought_back<E: Fn(&Expr, &Record) -> bool>(
    states: Seq<Derived>,
    defs: Seq<SpecModel>,
    cached: Seq<Option<Seq<Group>>>,
    rows: Seq<RowsModel>,
    results: Seq<Result<bool, Error>>,
    eval: E,
    n: int,
    c: Seq<char>,
)
    requires
        brought_back(states, defs, cached, rows, results, eval),
        defs.no_duplicates(),
        forall|i: int| 0 <= i < defs.len() ==> shape_named((#[trigger] defs[i]).1) is Ok,
        0 <= n <= defs.len(),
    ensures
        names_and_kinds(states[n].indexes_of(c)) == definitions_on(defs.take(n), c),
    decreases n,
{
    let now = states[n].indexes_of(c);
    if n == 0 {
        assert(names_and_kinds(now) =~= definitions_on(defs.take(0), c));
    } else {
        let d = defs[n - 1];
        lemma_brought_back(states, defs, cached, rows, results, eval, n - 1, c);
        let was = states[n - 1].indexes_of(c);
        assert(defs.take(n).drop_last() =~= defs.take(n - 1));
        assert(defs.take(n).last() == d);
        assert(index_outcome(
            states[n - 1],
            states[n - 1 + 1],
            results[n - 1],
            d.0,
            true,
            d.1,
            d.2,
            cached[n - 1],
            rows[n - 1],
            eval,
        ));
        if d.0 == c {
            assert(shape_named(d.1) is Ok);
            an_index_goes_by_the_name_it_was_asked_by(d.1);
            if exists_index(was, d.1, d.2) {
                let i = choose|i: int| 0 <= i < was.len() && is_index(#[trigger] was[i], d.1, d.2);
                assert(names_and_kinds(was)[i] == (d.1, d.2));
                lemma_defined_before(defs.take(n - 1), c, i);
                let j = choose|j: int|
                    0 <= j < defs.take(n - 1).len() && #[trigger] defs.take(n - 1)[j] == (
                        c,
                        d.1,
                        d.2,
                    );
                assert(defs[j] == defs[n - 1]);
            }
            assert(now == was.push(now.last()));
            assert(names_and_kinds(now) =~= names_and_kinds(was).push((d.1, d.2)));
        } else {
            assert(now == was);
        }
    }
}

/// A database opened again has the indexes and the constraints it had: where its
/// definitions are those of its indexes, bringing them back gives every collection
/// indexes of the same names and kinds in the same order, so that listing them gives
/// what it gave; and its saved constraints read back as they were.
pub proof fn a_database_opened_again_has_what_it_had<E: Fn(&Expr, &Record) -> bool>(
    d: Derived,
    constraints: Seq<Pair>,
    states: Seq<Derived>,
    defs: Seq<SpecModel>,
    cached: Seq<Option<Seq<Group>>>,
    rows: Seq<RowsModel>,
    results: Seq<Result<bool, Error>>,
    eval: E,
    before: Seq<SpecModel>,
    after: Seq<SpecModel>,
)
    requires
        d.indexes.wf(),
        states.last().indexes.wf(),
        brought_back(states, defs, cached, rows, results, eval),
        defs.no_duplicates(),
        forall|i: int| 0 <= i < defs.len() ==> shape_named((#[trigger] defs[i]).1) is Ok,
        forall|c: Seq<char>|
            definitions_on(defs, c) == #[trigger] names_and_kinds(d.indexes_of(c)),
        saveable(constraints),
        specs_ordered(before),
        before.to_multiset() == specs_of(d).to_multiset(),
        specs_ordered(after),
        after.to_multiset() == specs_of(states.last()).to_multiset(),
    ensures
        same_specs(d, states.last()),
        after == before,
        saved_pairs(saved_bytes(constraints)) == Some(constraints),
{
    let n = defs.len() as int;
    assert(defs.take(n) =~= defs);
    assert forall|c: Seq<char>| #[trigger]
        names_and_kinds(d.indexes_of(c)) == names_and_kinds(states.last().indexes_of(c)) by {
        lemma_brought_back(states, defs, cached, rows, results, eval, n, c);
    }
    lemma_same_specs(d, states.last());
    lemma_one_listing(before, after);
    reading_inverts_writing(constraints);
}

// -- opening again: what the indexes hold ---------------------------------------------

/// Whether an index is the one its name asks for.
pub open spec fn told_by_name(m: IndexModel) -> bool {
    shape_named(shape_name(m.shape)) == Ok::<ShapeModel, Fault>(m.shape)
}

/// Whether an index is over fields whose names are free of separators, and its condition,
/// where it has one, is one that its name can hold.
pub open spec fn plainly_named(s: ShapeModel) -> bool {
    match s {
        ShapeModel::Ordinary { field } => plain(field),
        ShapeModel::Covering { field, covers } => plain(field) && covers.len() > 0 && all_plain(covers),
        ShapeModel::Composite { fields } => fields.len() >= 2 && all_plain(fields),
        ShapeModel::Partial { field, condition, encoded } => plain(field) && encoded == hex_text(
            expr_bytes(condition),
        ) && writable(condition, levels_allowed()),
    }
}

pub open spec fn all_plain(s: Seq<Seq<char>>) -> bool {
    forall|i: int| 0 <= i < s.len() ==> plain(#[trigger] s[i])
}

proof fn lemma_hex_plain(bytes: Seq<u8>)
    ensures
        plain(hex_text(bytes)),
{
    let t = hex_text(bytes);
    assert forall|i: int| 0 <= i < t.len() implies #[trigger] t[i] != COMPOSITE_SEP && t[i]
        != COVER_SEP && t[i] != PARTIAL_SEP by {
        assert(t[i] == hex_char((bytes[i / 2] / 16) as int) || t[i] == hex_char(
            (bytes[i / 2] % 16) as int,
        ));
    }
}

/// An index over fields whose names are free of separators is the one its name asks for,
/// and its name says what it is.
pub proof fn a_plain_index_is_told_by_its_name(m: IndexModel)
    requires
        plainly_named(m.shape),
    ensures
        told_by_name(m),
        well_named(m),
{
    let none = Seq::<Seq<char>>::empty();
    match m.shape {
        ShapeModel::Ordinary { field } => {
            lemma_hex_plain(Seq::empty());
            a_name_says_what_it_names(field, none, hex_text(Seq::empty()));
        },
        ShapeModel::Covering { field, covers } => {
            lemma_hex_plain(Seq::empty());
            a_name_says_what_it_names(field, covers, hex_text(Seq::empty()));
            lemma_separators();
            lemma_joined_chars(covers, "\u{0}"@, PARTIAL_SEP);
            let t = joined(covers, "\u{0}"@);
            let name = shape_name(m.shape);
            assert(!name.contains(PARTIAL_SEP)) by {
                if name.contains(PARTIAL_SEP) {
                    let k = choose|k: int| 0 <= k < name.len() && name[k] == PARTIAL_SEP;
                    if k < field.len() {
                        assert(field[k] == PARTIAL_SEP);
                    } else if k > field.len() {
                        assert(t[k - field.len() - 1] == PARTIAL_SEP);
                    }
                }
            }
        },
        ShapeModel::Composite { fields } => {
            lemma_hex_plain(Seq::empty());
            a_name_says_what_it_names(Seq::empty(), fields, hex_text(Seq::empty()));
        },
        ShapeModel::Partial { field, condition, encoded } => {
            lemma_hex_plain(expr_bytes(condition));
            a_name_says_what_it_names(field, none, encoded);
            hex_decoding_inverts_hex_encoding(condition);
            lemma_separators();
            assert(shape_name(m.shape)[field.len() as int] == PARTIAL_SEP);
        },
    }
}

/// Whether cached entries may stand for what the records give: there are none, or the
/// index that is asked for is not put together from entries, or they are the entries of
/// such an index that says what the records say.
pub open spec fn of_the_records(
    cached: Option<Seq<Group>>,
    name: Seq<char>,
    keeps: Keeps,
    t: Records,
) -> bool {
    cached matches Some(g) ==> (shape_named(name) matches Ok(shape) ==> {
        ||| shape is Covering
        ||| shape is Partial
        ||| entries_of_one(g, shape, keeps, t)
    })
}

/// Whether groups are the entries of an index that says what the records say.
pub open spec fn entries_of_one(g: Seq<Group>, shape: ShapeModel, keeps: Keeps, t: Records) -> bool {
    exists|m: IndexModel| #[trigger]
        groups_of(g, m) && m.shape == shape && index_ok(m) && faithful(m, keeps, t)
}

proof fn lemma_among_all(e: Seq<(Seq<char>, Vec<Index>)>, n: int, at: int, i: int) -> (k: int)
    requires
        0 <= at < n <= e.len(),
        0 <= i < e[at].1@.len(),
    ensures
        0 <= k < all_indexes(e, n).len(),
        all_indexes(e, n)[k] == (e[at].0, index_models(e[at].1@)[i]),
    decreases n,
{
    if at == n - 1 {
        all_indexes(e, n - 1).len() + i
    } else {
        lemma_among_all(e, n - 1, at, i)
    }
}

/// What was saved of a database whose indexes say what the records say is of the
/// records: what is found under an index's name are that index's entries.
pub proof fn what_was_saved_is_of_the_records(
    d: Derived,
    saved: Seq<(String, Vec<u8>)>,
    keeps: Keeps,
    c: Seq<char>,
    t: Records,
    i: int,
)
    requires
        d.wf(),
        agrees_with(d, keeps, c, t),
        all_saved(d, saved),
        0 <= i < d.indexes_of(c).len(),
        told_by_name(d.indexes_of(c)[i]),
    ensures
        ({
            let m = d.indexes_of(c)[i];
            of_the_records(
                cached_under(saved, cache_key(c, shape_name(m.shape), m.kind)),
                shape_name(m.shape),
                keeps,
                t,
            )
        }),
{
    let m = d.indexes_of(c)[i];
    let key = cache_key(c, shape_name(m.shape), m.kind);
    if cached_under(saved, key) is Some {
        let p = choose|p: int| only_place(saved, key, p);
        let e = d.indexes.entries();
        let at = lemma_find_some(e, c);
        let list = e[at].1@;
        assert(all_ordered(list));
        assert(list[i].wf());
        list[i].an_index_is_in_order();
        let k = lemma_among_all(e, e.len() as int, at, i);
        assert(saved_as(c, m, saved[k].0@, saved[k].1@));
        assert(k == p);
        let g = choose|g: Seq<Group>| #[trigger]
            groups_of(g, m) && sized(g) && saved[k].1@ == entries_bytes(g);
        cached_entries_read_back_or_not_at_all(g);
        assert(faithful(d.indexes_of(c)[i], keeps, t));
        assert(entries_of_one(g, m.shape, keeps, t));
    }
}

/// Making the index a name asks for keeps agreement, from the records or from cached
/// entries that are of the records.
pub proof fn making_a_named_index_keeps_agreement<E: Fn(&Expr, &Record) -> bool>(
    a: Derived,
    b: Derived,
    r: Result<bool, Error>,
    c: Seq<char>,
    known: bool,
    name: Seq<char>,
    kind: IndexKind,
    cached: Option<Seq<Group>>,
    rows: RowsModel,
    eval: E,
    keeps: Keeps,
    t: Records,
)
    requires
        index_outcome(a, b, r, c, known, name, kind, cached, rows, eval),
        evaluates(eval, keeps),
        agrees_with(a, keeps, c, t),
        known ==> records_of(rows) == t && of_the_records(cached, name, keeps, t),
    ensures
        agrees_with(b, keeps, c, t),
{
    if r == Ok::<bool, Error>(true) {
        let shape = shape_named(name)->Ok_0;
        let new = b.indexes_of(c).last();
        if cached is Some && !(shape is Covering) && !(shape is Partial) {
            let g = cached->Some_0;
            let m = choose|m: IndexModel| #[trigger]
                groups_of(g, m) && m.shape == shape && index_ok(m) && faithful(m, keeps, t);
            a_restored_index_holds_what_was_cached(m, g, new);
            assert forall|k: ValueModel, id: u64| #[trigger]
                new.entries.contains((k, id)) <==> key_under(new.shape, keeps, t, id) == Some(k) by {
                assert(m.entries.contains((k, id)) <==> key_under(m.shape, keeps, t, id) == Some(k));
            }
        }
        assert(faithful(new, keeps, t));
        assert(one_more(a, b, keeps, c, t));
        making_an_index_keeps_agreement(a, b, keeps, c, t);
    } else {
        assert(b.indexes_of(c) == a.indexes_of(c));
        assert(b.array_of(c) == a.array_of(c));
        assert(b.columns_of(c) == a.columns_of(c));
    }
}

/// An index that was brought back is the one its name asks for.
proof fn lemma_back<E: Fn(&Expr, &Record) -> bool>(
    a: Derived,
    b: Derived,
    r: Result<bool, Error>,
    c: Seq<char>,
    name: Seq<char>,
    kind: IndexKind,
    cached: Option<Seq<Group>>,
    rows: RowsModel,
    eval: E,
)
    requires
        index_outcome(a, b, r, c, true, name, kind, cached, rows, eval),
        forall|k: int| 0 <= k < a.indexes_of(c).len() ==> told_by_name(#[trigger] a.indexes_of(c)[k]),
    ensures
        forall|k: int| 0 <= k < b.indexes_of(c).len() ==> told_by_name(#[trigger] b.indexes_of(c)[k]),
{
    if r == Ok::<bool, Error>(true) {
        an_index_goes_by_the_name_it_was_asked_by(name);
        assert(told_by_name(b.indexes_of(c).last()));
        assert forall|k: int| 0 <= k < b.indexes_of(c).len() implies told_by_name(
            #[trigger] b.indexes_of(c)[k],
        ) by {
            if k < a.indexes_of(c).len() {
                assert(b.indexes_of(c)[k] == a.indexes_of(c)[k]);
            }
        }
    } else {
        assert(b.indexes_of(c) == a.indexes_of(c));
    }
}

/// Bringing indexes back in turn keeps agreement: where each comes from the rows of its
/// collection, or from cached entries that are of its records, a state that agreed with
/// the records of a collection before any was back agrees with them when all are.
pub proof fn bringing_indexes_back_keeps_agreement<E: Fn(&Expr, &Record) -> bool>(
    states: Seq<Derived>,
    defs: Seq<SpecModel>,
    cached: Seq<Option<Seq<Group>>>,
    rows: Seq<RowsModel>,
    results: Seq<Result<bool, Error>>,
    eval: E,
    keeps: Keeps,
    c: Seq<char>,
    t: Records,
    n: int,
)
    requires
        brought_back(states, defs, cached, rows, results, eval),
        evaluates(eval, keeps),
        agrees_with(states[0], keeps, c, t),
        forall|i: int|
            0 <= i < defs.len() && (#[trigger] defs[i]).0 == c ==> records_of(rows[i]) == t
                && of_the_records(cached[i], defs[i].1, keeps, t),
        0 <= n <= defs.len(),
    ensures
        agrees_with(states[n], keeps, c, t),
        forall|k: int|
            0 <= k < states[n].indexes_of(c).len() ==> told_by_name(
                #[trigger] states[n].indexes_of(c)[k],
            ),
    decreases n,
{
    if n > 0 {
        let (a, b, d) = (states[n - 1], states[n - 1 + 1], defs[n - 1]);
        bringing_indexes_back_keeps_agreement(
            states,
            defs,
            cached,
            rows,
            results,
            eval,
            keeps,
            c,
            t,
            n - 1,
        );
        assert(index_outcome(
            a,
            b,
            results[n - 1],
            d.0,
            true,
            d.1,
            d.2,
            cached[n - 1],
            rows[n - 1],
            eval,
        ));
        if d.0 == c {
            let (r, kept, own) = (results[n - 1], cached[n - 1], rows[n - 1]);
            lemma_back(a, b, r, c, d.1, d.2, kept, own, eval);
            making_a_named_index_keeps_agreement(
                a,
                b,
                r,
                c,
                true,
                d.1,
                d.2,
                kept,
                own,
                eval,
                keeps,
                t,
            );
        } else {
            assert(b.indexes_of(c) == a.indexes_of(c));
        }
    }
}

proof fn lemma_defined(defs: Seq<SpecModel>, c: Seq<char>, i: int) -> (k: int)
    requires
        0 <= i < defs.len(),
        defs[i].0 == c,
    ensures
        0 <= k < definitions_on(defs, c).len(),
        definitions_on(defs, c)[k] == (defs[i].1, defs[i].2),
    decreases defs.len(),
{
    if i == defs.len() - 1 {
        definitions_on(defs.drop_last(), c).len() as int
    } else {
        assert(defs.drop_last()[i] == defs[i]);
        lemma_defined(defs.drop_last(), c, i)
    }
}

/// A database opened again says what its records say, and is found clean. `d` is what
/// was derived when it was closed, and `saved` what was cached of it. Whether the cache
/// is then intact or an index's entries are missing from it, every index comes back, and
/// what is derived agrees with the records of each collection just as it did; so a check
/// finds nothing, and the same queries have the same answers.
pub proof fn a_database_opened_again_agrees_with_its_records<E: Fn(&Expr, &Record) -> bool>(
    d: Derived,
    saved: Seq<(String, Vec<u8>)>,
    states: Seq<Derived>,
    defs: Seq<SpecModel>,
    cached: Seq<Option<Seq<Group>>>,
    rows: Seq<RowsModel>,
    results: Seq<Result<bool, Error>>,
    eval: E,
    keeps: Keeps,
    c: Seq<char>,
    now: RowsModel,
)
    requires
        d.wf(),
        agrees_with(d, keeps, c, records_of(now)),
        forall|i: int|
            0 <= i < d.indexes_of(c).len() ==> told_by_name(#[trigger] d.indexes_of(c)[i])
                && well_named(d.indexes_of(c)[i]),
        all_saved(d, saved),
        brought_back(states, defs, cached, rows, results, eval),
        evaluates(eval, keeps),
        agrees_with(states[0], keeps, c, records_of(now)),
        defs.no_duplicates(),
        forall|i: int| 0 <= i < defs.len() ==> shape_named((#[trigger] defs[i]).1) is Ok,
        definitions_on(defs, c) == names_and_kinds(d.indexes_of(c)),
        forall|i: int|
            0 <= i < defs.len() && (#[trigger] defs[i]).0 == c ==> rows[i] == now && (cached[i] is None
                || cached[i] == cached_under(saved, cache_key(c, defs[i].1, defs[i].2))),
        ascending(now),
    ensures
        names_and_kinds(states.last().indexes_of(c)) == names_and_kinds(d.indexes_of(c)),
        agrees_with(states.last(), keeps, c, records_of(now)),
        collection_problems(states.last(), c, keeps, now) == Seq::<DivergenceModel>::empty(),
{
    let t = records_of(now);
    let n = defs.len() as int;
    let had = d.indexes_of(c);
    assert forall|i: int| 0 <= i < defs.len() && (#[trigger] defs[i]).0 == c implies records_of(
        rows[i],
    ) == t && of_the_records(cached[i], defs[i].1, keeps, t) by {
        let k = lemma_defined(defs, c, i);
        assert(names_and_kinds(had)[k] == (defs[i].1, defs[i].2));
        assert(told_by_name(had[k]));
        what_was_saved_is_of_the_records(d, saved, keeps, c, t, k);
    }
    bringing_indexes_back_keeps_agreement(
        states,
        defs,
        cached,
        rows,
        results,
        eval,
        keeps,
        c,
        t,
        n,
    );
    lemma_brought_back(states, defs, cached, rows, results, eval, n, c);
    assert(defs.take(n) =~= defs);
    let has = states.last().indexes_of(c);
    assert(has.len() == names_and_kinds(has).len() && had.len() == names_and_kinds(had).len());
    assert forall|i: int| 0 <= i < has.len() implies well_named(#[trigger] has[i]) by {
        assert(names_and_kinds(has)[i] == names_and_kinds(had)[i]);
        assert(told_by_name(has[i]) && told_by_name(had[i]));
        assert(has[i].shape == had[i].shape);
    }
    an_agreeing_state_is_clean(states.last(), c, keeps, now);
}

} // verus!
