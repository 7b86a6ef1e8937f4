//! The names that index definitions go by.
//!
//! An index over one field has the field's name. One over several has their
//! names joined by a NUL. One that carries fields beside its key, or that holds
//! only the records some condition keeps, has them after a separator of its own,
//! the condition in hexadecimal.

use vstd::prelude::*;
use vstd::string::*;
use crate::text::{join, joined, texts};

verus! {

/// Between the fields of a composite index, and between the fields carried.
pub const COMPOSITE_SEP: char = '\u{0}';

/// Between the field of a covering index and those it carries.
pub const COVER_SEP: char = '\u{1}';

/// Between the field of a partial index and its condition.
pub const PARTIAL_SEP: char = '\u{2}';

/// What stands between the occurrences of a character.
pub open spec fn pieces(s: Seq<char>, c: char) -> Seq<Seq<char>>
    decreases s.len(),
{
    if s.len() == 0 {
        seq![Seq::<char>::empty()]
    } else {
        let before = pieces(s.drop_last(), c);
        if s.last() == c {
            before.push(Seq::empty())
        } else {
            before.drop_last().push(before.last().push(s.last()))
        }
    }
}

pub proof fn lemma_pieces_nonempty(s: Seq<char>, c: char)
    ensures
        pieces(s, c).len() > 0,
    decreases s.len(),
{
    if s.len() > 0 {
        lemma_pieces_nonempty(s.drop_last(), c);
    }
}

/// A text without the character is one piece.
pub proof fn lemma_one_piece(s: Seq<char>, c: char)
    requires
        !s.contains(c),
    ensures
        pieces(s, c) == seq![s],
    decreases s.len(),
{
    if s.len() > 0 {
        let rest = s.drop_last();
        assert(s[s.len() - 1] == s.last());
        assert(!rest.contains(c)) by {
            if rest.contains(c) {
                let i = choose|i: int| 0 <= i < rest.len() && rest[i] == c;
                assert(s[i] == c);
            }
        }
        lemma_one_piece(rest, c);
        assert(rest.push(s.last()) =~= s);
        assert(seq![rest].drop_last().push(seq![rest].last().push(s.last())) =~= seq![s]);
    } else {
        assert(s =~= Seq::empty());
    }
}

/// What is joined by a character comes apart again, where no part has it.
pub proof fn lemma_joined_pieces(parts: Seq<Seq<char>>, sep: Seq<char>, c: char)
    requires
        parts.len() > 0,
        sep == seq![c],
        forall|i: int| 0 <= i < parts.len() ==> !(#[trigger] parts[i]).contains(c),
    ensures
        pieces(joined(parts, sep), c) == parts,
    decreases parts.len(),
{
    let rest = parts.drop_last();
    let last = parts.last();
    assert(parts[parts.len() - 1] == last);
    if parts.len() == 1 {
        lemma_one_piece(last, c);
        assert(joined(parts, sep) =~= last);
        assert(seq![last] =~= parts);
    } else {
        assert forall|i: int| 0 <= i < rest.len() implies !(#[trigger] rest[i]).contains(c) by {
            assert(rest[i] == parts[i]);
        }
        lemma_joined_pieces(rest, sep, c);
        lemma_pieces_of_sum(joined(rest, sep), last, c);
        assert(joined(parts, sep) =~= joined(rest, sep).push(c) + last);
        assert(rest.push(last) =~= parts);
    }
}

/// Adding the character and then a text without it adds one piece.
proof fn lemma_pieces_of_sum(head: Seq<char>, tail: Seq<char>, c: char)
    requires
        !tail.contains(c),
    ensures
        pieces(head.push(c) + tail, c) == pieces(head, c).push(tail),
    decreases tail.len(),
{
    if tail.len() == 0 {
        assert(head.push(c) + tail =~= head.push(c));
        assert(head.push(c).drop_last() =~= head);
        assert(tail =~= Seq::empty());
    } else {
        let rest = tail.drop_last();
        assert(tail[tail.len() - 1] == tail.last());
        assert(!rest.contains(c)) by {
            if rest.contains(c) {
                let i = choose|i: int| 0 <= i < rest.len() && rest[i] == c;
                assert(tail[i] == c);
            }
        }
        lemma_pieces_of_sum(head, rest, c);
        let s = head.push(c) + tail;
        assert(s.drop_last() =~= head.push(c) + rest);
        assert(s.last() == tail.last());
        let p = pieces(head, c);
        assert(p.push(rest).drop_last() =~= p);
        assert(rest.push(tail.last()) =~= tail);
    }
}

/// Split a text at a character.
pub fn split_on(s: &str, c: char) -> (out: Vec<String>)
    ensures
        texts(out@) == pieces(s@, c),
{
    let n: usize = s.unicode_len();
    let mut out: Vec<String> = Vec::new();
    let mut from: usize = 0;
    let mut i: usize = 0;
    assert(s@.take(0) =~= Seq::empty());
    assert(texts(out@).push(s@.subrange(0, 0)) =~= pieces(s@.take(0), c));
    while i < n
        invariant
            from <= i <= n,
            n == s@.len(),
            texts(out@).push(s@.subrange(from as int, i as int)) == pieces(s@.take(i as int), c),
        decreases n - i,
    {
        let ghost before = texts(out@);
        let ghost part = s@.subrange(from as int, i as int);
        proof {
            assert(s@.take(i + 1).drop_last() =~= s@.take(i as int));
            assert(s@.take(i + 1).last() == s@[i as int]);
            assert(before.push(part).drop_last() =~= before);
        }
        if s.get_char(i) == c {
            out.push(s.substring_char(from, i).to_owned());
            from = i + 1;
            assert(texts(out@) =~= before.push(part));
            assert(s@.subrange(i + 1, i + 1) =~= Seq::empty());
        } else {
            assert(s@.subrange(from as int, i + 1) =~= part.push(s@[i as int]));
        }
        i += 1;
    }
    let ghost before = texts(out@);
    out.push(s.substring_char(from, n).to_owned());
    assert(texts(out@) =~= before.push(s@.subrange(from as int, n as int)));
    assert(s@.take(n as int) =~= s@);
    out
}

/// Whether a character occurs.
pub fn has_char(s: &str, c: char) -> (r: bool)
    ensures
        r == s@.contains(c),
{
    let n: usize = s.unicode_len();
    let mut i: usize = 0;
    while i < n
        invariant
            i <= n,
            n == s@.len(),
            forall|k: int| 0 <= k < i ==> #[trigger] s@[k] != c,
        decreases n - i,
    {
        if s.get_char(i) == c {
            assert(s@[i as int] == c);
            return true;
        }
        i += 1;
    }
    false
}

/// What an index name says.
pub enum NameModel {
    Ordinary(Seq<char>),
    Covering(Seq<char>, Seq<Seq<char>>),
    Composite(Seq<Seq<char>>),
    Partial(Seq<char>, Seq<char>),
}

/// What stands before and after the first occurrence of a character.
pub open spec fn cut(s: Seq<char>, c: char) -> (Seq<char>, Seq<char>)
    decreases s.len(),
{
    if s.len() == 0 {
        (Seq::empty(), Seq::empty())
    } else if s[0] == c {
        (Seq::empty(), s.drop_first())
    } else {
        let (a, b) = cut(s.drop_first(), c);
        (seq![s[0]] + a, b)
    }
}

/// What is put together with a character between comes apart at it.
pub proof fn lemma_cut(a: Seq<char>, b: Seq<char>, c: char)
    requires
        !a.contains(c),
    ensures
        cut(a.push(c) + b, c) == (a, b),
    decreases a.len(),
{
    let s = a.push(c) + b;
    if a.len() == 0 {
        assert(s[0] == c);
        assert(s.drop_first() =~= b);
        assert(a =~= Seq::empty());
    } else {
        let rest = a.drop_first();
        assert(a[0] != c) by {
            if a[0] == c {
                assert(a.contains(c));
            }
        }
        assert(!rest.contains(c)) by {
            if rest.contains(c) {
                let i = choose|i: int| 0 <= i < rest.len() && rest[i] == c;
                assert(a[i + 1] == c);
            }
        }
        assert(s[0] == a[0]);
        assert(s.drop_first() =~= rest.push(c) + b);
        lemma_cut(rest, b, c);
        assert(seq![a[0]] + rest =~= a);
    }
}

/// Split a text at the first occurrence of a character.
pub fn cut_at(s: &str, c: char) -> (r: (String, String))
    requires
        s@.contains(c),
    ensures
        (r.0@, r.1@) == cut(s@, c),
{
    let n: usize = s.unicode_len();
    let mut i: usize = 0;
    assert(s@.skip(0) =~= s@);
    assert(s@.take(0) =~= Seq::empty());
    assert(s@.take(0) + cut(s@, c).0 =~= cut(s@, c).0);
    while i < n && s.get_char(i) != c
        invariant
            i <= n,
            n == s@.len(),
            s@.take(i as int) + cut(s@.skip(i as int), c).0 == cut(s@, c).0,
            cut(s@.skip(i as int), c).1 == cut(s@, c).1,
            forall|k: int| 0 <= k < i ==> #[trigger] s@[k] != c,
        decreases n - i,
    {
        proof {
            let t = s@.skip(i as int);
            assert(t[0] == s@[i as int]);
            assert(t.drop_first() =~= s@.skip(i + 1));
            assert(s@.take(i as int) + (seq![t[0]] + cut(t.drop_first(), c).0) =~= s@.take(i + 1)
                + cut(t.drop_first(), c).0);
        }
        i += 1;
    }
    proof {
        if i == n {
            let k = choose|k: int| 0 <= k < s@.len() && s@[k] == c;
            assert(s@[k] != c);
        }
        let t = s@.skip(i as int);
        assert(t[0] == c);
        assert(t.drop_first() =~= s@.skip(i + 1));
        assert(s@.take(i as int) + Seq::<char>::empty() =~= s@.take(i as int));
    }
    let a = s.substring_char(0, i);
    let b = s.substring_char(i + 1, n);
    assert(a@ =~= s@.take(i as int));
    assert(b@ =~= s@.skip(i + 1));
    (a.to_owned(), b.to_owned())
}

/// The name of an index over several fields.
pub open spec fn composite_text(fields: Seq<Seq<char>>) -> Seq<char> {
    joined(fields, "\u{0}"@)
}

/// The name of an index that carries fields.
pub open spec fn covering_text(field: Seq<char>, covers: Seq<Seq<char>>) -> Seq<char> {
    field + "\u{1}"@ + joined(covers, "\u{0}"@)
}

/// The name of an index that holds only some records.
pub open spec fn partial_text(field: Seq<char>, encoded: Seq<char>) -> Seq<char> {
    field + "\u{2}"@ + encoded
}

pub fn composite_name(fields: &Vec<String>) -> (s: String)
    ensures
        s@ == composite_text(texts(fields@)),
{
    join(fields, "\u{0}")
}

pub fn covering_name(field: &str, covers: &Vec<String>) -> (s: String)
    ensures
        s@ == covering_text(field@, texts(covers@)),
{
    let mut s = field.to_owned();
    s.append("\u{1}");
    s.append(join(covers, "\u{0}").as_str());
    s
}

pub fn partial_name(field: &str, encoded: &str) -> (s: String)
    ensures
        s@ == partial_text(field@, encoded@),
{
    let mut s = field.to_owned();
    s.append("\u{2}");
    s.append(encoded);
    s
}

/// Which shape of index a name is of. A covering name over several fields has a
/// NUL in it too, so that is asked first.
pub open spec fn named(name: Seq<char>) -> NameModel {
    if name.contains(COVER_SEP) {
        let (field, covers) = cut(name, COVER_SEP);
        NameModel::Covering(field, pieces(covers, COMPOSITE_SEP))
    } else if name.contains(PARTIAL_SEP) {
        let (field, encoded) = cut(name, PARTIAL_SEP);
        NameModel::Partial(field, encoded)
    } else if name.contains(COMPOSITE_SEP) {
        NameModel::Composite(pieces(name, COMPOSITE_SEP))
    } else {
        NameModel::Ordinary(name)
    }
}

/// Which shape of index a name is of.
#[derive(Debug, PartialEq, Eq)]
pub enum IndexShape {
    Ordinary(String),
    Covering(String, Vec<String>),
    Composite(Vec<String>),
    Partial(String, String),
}

impl View for IndexShape {
    type V = NameModel;

    open spec fn view(&self) -> NameModel {
        match self {
            IndexShape::Ordinary(f) => NameModel::Ordinary(f@),
            IndexShape::Covering(f, c) => NameModel::Covering(f@, texts(c@)),
            IndexShape::Composite(f) => NameModel::Composite(texts(f@)),
            IndexShape::Partial(f, e) => NameModel::Partial(f@, e@),
        }
    }
}

pub fn classify_index(name: &str) -> (shape: IndexShape)
    ensures
        shape@ == named(name@),
{
    if has_char(name, COVER_SEP) {
        let (field, covers) = cut_at(name, COVER_SEP);
        IndexShape::Covering(field, split_on(covers.as_str(), COMPOSITE_SEP))
    } else if has_char(name, PARTIAL_SEP) {
        let (field, encoded) = cut_at(name, PARTIAL_SEP);
        IndexShape::Partial(field, encoded)
    } else if has_char(name, COMPOSITE_SEP) {
        IndexShape::Composite(split_on(name, COMPOSITE_SEP))
    } else {
        IndexShape::Ordinary(name.to_owned())
    }
}

/// Whether a name is free of separators.
pub open spec fn plain(s: Seq<char>) -> bool {
    !s.contains(COMPOSITE_SEP) && !s.contains(COVER_SEP) && !s.contains(PARTIAL_SEP)
}

pub proof fn lemma_separators()
    ensures
        "\u{0}"@ == seq![COMPOSITE_SEP],
        "\u{1}"@ == seq![COVER_SEP],
        "\u{2}"@ == seq![PARTIAL_SEP],
{
    reveal_strlit("\u{0}");
    reveal_strlit("\u{1}");
    reveal_strlit("\u{2}");
    assert("\u{0}"@ =~= seq![COMPOSITE_SEP]);
    assert("\u{1}"@ =~= seq![COVER_SEP]);
    assert("\u{2}"@ =~= seq![PARTIAL_SEP]);
}

/// What is joined has no character but those of its parts and the separator.
pub proof fn lemma_joined_chars(parts: Seq<Seq<char>>, sep: Seq<char>, c: char)
    requires
        !sep.contains(c),
        forall|i: int| 0 <= i < parts.len() ==> !(#[trigger] parts[i]).contains(c),
    ensures
        !joined(parts, sep).contains(c),
    decreases parts.len(),
{
    if parts.len() > 0 {
        let rest = parts.drop_last();
        assert(parts[parts.len() - 1] == parts.last());
        assert forall|i: int| 0 <= i < rest.len() implies !(#[trigger] rest[i]).contains(c) by {
            assert(rest[i] == parts[i]);
        }
        lemma_joined_chars(rest, sep, c);
        let s = joined(parts, sep);
        if s.contains(c) {
            let k = choose|k: int| 0 <= k < s.len() && s[k] == c;
            if parts.len() == 1 {
                assert(parts.last()[k] == c);
            } else {
                let a = joined(rest, sep);
                if k < a.len() {
                    assert(a[k] == c);
                } else if k < a.len() + sep.len() {
                    assert(sep[k - a.len()] == c);
                } else {
                    assert(parts.last()[k - a.len() - sep.len()] == c);
                }
            }
        }
    } else {
        assert(joined(parts, sep).len() == 0);
    }
}

/// An index's name says what the index is, and nothing else: a name never makes
/// an index of one shape be taken for one of another.
pub proof fn a_name_says_what_it_names(
    field: Seq<char>,
    fields: Seq<Seq<char>>,
    encoded: Seq<char>,
)
    requires
        plain(field),
        plain(encoded),
        forall|i: int| 0 <= i < fields.len() ==> plain(#[trigger] fields[i]),
    ensures
        named(field) == NameModel::Ordinary(field),
        fields.len() >= 2 ==> named(composite_text(fields)) == NameModel::Composite(fields),
        fields.len() >= 1 ==> named(covering_text(field, fields)) == NameModel::Covering(
            field,
            fields,
        ),
        named(partial_text(field, encoded)) == NameModel::Partial(field, encoded),
{
    lemma_separators();
    let nul = "\u{0}"@;
    if fields.len() >= 1 {
        lemma_joined_pieces(fields, nul, COMPOSITE_SEP);
        let t = joined(fields, nul);
        let s = covering_text(field, fields);
        assert(s =~= field.push(COVER_SEP) + t);
        assert(s[field.len() as int] == COVER_SEP);
        lemma_cut(field, t, COVER_SEP);
    }
    if fields.len() >= 2 {
        let s = composite_text(fields);
        lemma_joined_chars(fields, nul, COVER_SEP);
        lemma_joined_chars(fields, nul, PARTIAL_SEP);
        let rest = fields.drop_last();
        let a = joined(rest, nul);
        assert(s[a.len() as int] == COMPOSITE_SEP);
    }
    let s = partial_text(field, encoded);
    assert(s =~= field.push(PARTIAL_SEP) + encoded);
    assert(s[field.len() as int] == PARTIAL_SEP);
    lemma_cut(field, encoded, PARTIAL_SEP);
    if s.contains(COVER_SEP) {
        let k = choose|k: int| 0 <= k < s.len() && s[k] == COVER_SEP;
        if k < field.len() {
            assert(field[k] == COVER_SEP);
        } else if k > field.len() {
            assert(encoded[k - field.len() - 1] == COVER_SEP);
        }
    }
}

} // verus!
