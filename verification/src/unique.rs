//! Unique constraints: fields where two records may not share a value.
//!
//! The set is kept in order, so the bytes it is saved as depend on its members
//! alone. Those bytes carry a checksum; anything that is not exactly a saved set
//! reads as no constraints at all.

use vstd::arithmetic::div_mod::*;
use vstd::arithmetic::mul::*;
use vstd::bytes::*;
use vstd::prelude::*;
use vstd::slice::*;
use vstd::utf8::*;
use crate::text::{
    lemma_text_before_total, lemma_text_before_transitive, str_eq, str_lt, text_before,
};
use crate::wire::{put_bytes, utf8_string};

verus! {

/// A constrained field: its collection and its name.
pub type Pair = (Seq<char>, Seq<char>);

/// Pairs are ordered by collection, then by field.
pub open spec fn pair_before(a: Pair, b: Pair) -> bool {
    text_before(a.0, b.0) || (a.0 == b.0 && text_before(a.1, b.1))
}

/// Whether pairs stand in order, none of them twice.
pub open spec fn ordered(pairs: Seq<Pair>) -> bool {
    forall|i: int, j: int|
        #![trigger pairs[i], pairs[j]]
        0 <= i < j < pairs.len() ==> pair_before(pairs[i], pairs[j])
}

pub proof fn lemma_pair_before_total(a: Pair, b: Pair)
    ensures
        pair_before(a, b) || pair_before(b, a) || a == b,
        !(pair_before(a, b) && pair_before(b, a)),
        !pair_before(a, a),
{
    lemma_text_before_total(a.0, b.0);
    lemma_text_before_total(a.1, b.1);
    lemma_text_before_total(a.0, a.0);
    lemma_text_before_total(a.1, a.1);
}

pub proof fn lemma_pair_before_transitive(a: Pair, b: Pair, c: Pair)
    requires
        pair_before(a, b),
        pair_before(b, c),
    ensures
        pair_before(a, c),
{
    if a.0 != b.0 && b.0 != c.0 {
        lemma_text_before_transitive(a.0, b.0, c.0);
    } else if a.0 == b.0 && b.0 == c.0 {
        lemma_text_before_total(a.0, a.0);
        lemma_text_before_transitive(a.1, b.1, c.1);
    }
}

/// The set of `(collection, field)` pairs currently constrained.
#[derive(Debug, PartialEq, Eq)]
pub struct UniqueConstraints {
    fields: Vec<(String, String)>,
}

impl View for UniqueConstraints {
    type V = Set<Pair>;

    /// The constrained pairs.
    open spec fn view(&self) -> Set<Pair> {
        self.pairs().to_set()
    }
}

impl Default for UniqueConstraints {
    fn default() -> (r: UniqueConstraints)
        ensures
            r.wf(),
            r@ == Set::<Pair>::empty(),
            r.pairs() == Seq::<Pair>::empty(),
    {
        let r = UniqueConstraints { fields: Vec::new() };
        assert(r.pairs() =~= Seq::empty());
        assert(r@ =~= Set::empty());
        r
    }
}

impl UniqueConstraints {
    /// The constrained pairs in the order they are kept.
    pub closed spec fn pairs(&self) -> Seq<Pair> {
        self.fields@.map_values(|p: (String, String)| (p.0@, p.1@))
    }

    pub open spec fn wf(&self) -> bool {
        ordered(self.pairs())
    }

    /// The first place whose pair does not sort before the given one.
    fn place(&self, collection: &str, field: &str) -> (i: usize)
        requires
            self.wf(),
        ensures
            i <= self.pairs().len(),
            forall|k: int|
                0 <= k < i ==> pair_before(#[trigger] self.pairs()[k], (collection@, field@)),
            forall|k: int|
                i <= k < self.pairs().len() ==> !pair_before(
                    #[trigger] self.pairs()[k],
                    (collection@, field@),
                ),
            self@.contains((collection@, field@)) == (i < self.pairs().len() && self.pairs()[i as int]
                == (collection@, field@)),
    {
        let ghost want = (collection@, field@);
        let mut i: usize = 0;
        while i < self.fields.len() && (str_lt(self.fields[i].0.as_str(), collection) || (str_eq(
            self.fields[i].0.as_str(),
            collection,
        ) && str_lt(self.fields[i].1.as_str(), field)))
            invariant
                i <= self.fields.len(),
                want == (collection@, field@),
                self.pairs().len() == self.fields@.len(),
                forall|k: int| 0 <= k < i ==> pair_before(#[trigger] self.pairs()[k], want),
            decreases self.fields.len() - i,
        {
            assert(self.pairs()[i as int] == (self.fields@[i as int].0@, self.fields@[i as int].1@));
            i += 1;
        }
        proof {
            if i < self.pairs().len() {
                assert(!pair_before(self.pairs()[i as int], want));
            }
            assert forall|k: int| i <= k < self.pairs().len() implies !pair_before(
                #[trigger] self.pairs()[k],
                want,
            ) by {
                if k > i && pair_before(self.pairs()[k], want) {
                    lemma_pair_before_transitive(self.pairs()[i as int], self.pairs()[k], want);
                }
            }
            if self@.contains(want) {
                let k = choose|k: int| 0 <= k < self.pairs().len() && self.pairs()[k] == want;
                lemma_pair_before_total(want, want);
                if k > i {
                    assert(pair_before(self.pairs()[i as int], self.pairs()[k]));
                }
            }
        }
        i
    }

    fn holds_at(&self, i: usize, collection: &str, field: &str) -> (r: bool)
        ensures
            r == (i < self.pairs().len() && self.pairs()[i as int] == (collection@, field@)),
    {
        i < self.fields.len() && str_eq(self.fields[i].0.as_str(), collection) && str_eq(
            self.fields[i].1.as_str(),
            field,
        )
    }

    pub fn contains(&self, collection: &str, field: &str) -> (r: bool)
        requires
            self.wf(),
        ensures
            r == self@.contains((collection@, field@)),
    {
        let i = self.place(collection, field);
        self.holds_at(i, collection, field)
    }

    /// Constrain a field. False if it already was.
    pub fn add(&mut self, collection: &str, field: &str) -> (fresh: bool)
        requires
            old(self).wf(),
        ensures
            final(self).wf(),
            final(self)@ == old(self)@.insert((collection@, field@)),
            fresh == !old(self)@.contains((collection@, field@)),
    {
        let ghost want = (collection@, field@);
        let ghost before = self.pairs();
        let i = self.place(collection, field);
        if self.holds_at(i, collection, field) {
            assert(self@ =~= old(self)@.insert(want));
            return false;
        }
        self.fields.insert(i, (collection.to_owned(), field.to_owned()));
        proof {
            let after = self.pairs();
            assert(after =~= before.insert(i as int, want));
            assert forall|a: int, b: int| 0 <= a < b < after.len() implies pair_before(
                #[trigger] after[a],
                #[trigger] after[b],
            ) by {
                if b == i {
                    assert(after[a] == before[a]);
                } else if a == i {
                    assert(after[b] == before[b - 1]);
                    lemma_pair_before_total(want, before[b - 1]);
                    if want == before[b - 1] {
                        assert(before.contains(want));
                    }
                } else {
                    let x = if a < i { a } else { a - 1 };
                    let y = if b < i { b } else { b - 1 };
                    assert(after[a] == before[x] && after[b] == before[y]);
                }
            }
            assert forall|p: Pair| #[trigger] after.contains(p) == (before.contains(p) || p
                == want) by {
                if before.contains(p) {
                    let k = choose|k: int| 0 <= k < before.len() && before[k] == p;
                    let at = if k < i { k } else { k + 1 };
                    assert(after[at] == p);
                }
                if p == want {
                    assert(after[i as int] == p);
                }
                if after.contains(p) {
                    let k = choose|k: int| 0 <= k < after.len() && after[k] == p;
                    if k < i {
                        assert(before[k] == p);
                    } else if k > i {
                        assert(before[k - 1] == p);
                    }
                }
            }
            assert(self@ =~= old(self)@.insert(want));
        }
        true
    }

    /// Release a field. False if it was not constrained.
    pub fn remove(&mut self, collection: &str, field: &str) -> (found: bool)
        requires
            old(self).wf(),
        ensures
            final(self).wf(),
            final(self)@ == old(self)@.remove((collection@, field@)),
            found == old(self)@.contains((collection@, field@)),
    {
        let ghost want = (collection@, field@);
        let ghost before = self.pairs();
        let i = self.place(collection, field);
        if !self.holds_at(i, collection, field) {
            assert(self@ =~= old(self)@.remove(want));
            return false;
        }
        self.fields.remove(i);
        proof {
            let after = self.pairs();
            assert(after =~= before.remove(i as int));
            assert forall|a: int, b: int| 0 <= a < b < after.len() implies pair_before(
                #[trigger] after[a],
                #[trigger] after[b],
            ) by {
                let x = if a < i { a } else { a + 1 };
                let y = if b < i { b } else { b + 1 };
                assert(after[a] == before[x] && after[b] == before[y]);
            }
            assert forall|p: Pair| #[trigger] after.contains(p) == (before.contains(p) && p
                != want) by {
                if before.contains(p) && p != want {
                    let k = choose|k: int| 0 <= k < before.len() && before[k] == p;
                    let at = if k < i { k } else { k - 1 };
                    assert(after[at] == p);
                }
                if after.contains(p) {
                    let k = choose|k: int| 0 <= k < after.len() && after[k] == p;
                    let at = if k < i { k } else { k + 1 };
                    assert(before[at] == p);
                    lemma_pair_before_total(want, want);
                    if at < i {
                        assert(pair_before(before[at], before[i as int]));
                    } else {
                        assert(pair_before(before[i as int], before[at]));
                    }
                }
            }
            assert(self@ =~= old(self)@.remove(want));
        }
        true
    }

    /// Every constrained field on `collection`, in order.
    pub fn on(&self, collection: &str) -> (out: Vec<&str>)
        ensures
            out@.map_values(|s: &str| s@) == fields_on(self.pairs(), collection@),
    {
        let mut out: Vec<&str> = Vec::new();
        let mut i: usize = 0;
        assert(self.pairs().take(0) =~= Seq::empty());
        assert(out@.map_values(|s: &str| s@) =~= Seq::empty());
        while i < self.fields.len()
            invariant
                i <= self.fields.len(),
                self.pairs().len() == self.fields@.len(),
                out@.map_values(|s: &str| s@) == fields_on(
                    self.pairs().take(i as int),
                    collection@,
                ),
            decreases self.fields.len() - i,
        {
            let ghost done = self.pairs().take(i as int);
            let ghost grown = self.pairs().take(i + 1);
            assert(grown.drop_last() =~= done);
            let ghost held = out@;
            if str_eq(self.fields[i].0.as_str(), collection) {
                out.push(self.fields[i].1.as_str());
                assert(out@.map_values(|s: &str| s@) =~= held.map_values(|s: &str| s@).push(
                    self.pairs()[i as int].1,
                ));
            }
            i += 1;
        }
        assert(self.pairs().take(i as int) =~= self.pairs());
        out
    }

    /// Every constrained pair, in order.
    pub fn iter(&self) -> (out: Vec<(&str, &str)>)
        ensures
            out@.map_values(|p: (&str, &str)| (p.0@, p.1@)) == self.pairs(),
    {
        let mut out: Vec<(&str, &str)> = Vec::new();
        let mut i: usize = 0;
        while i < self.fields.len()
            invariant
                i <= self.fields.len(),
                out@.len() == i,
                forall|k: int|
                    0 <= k < i ==> (#[trigger] out@[k]).0@ == self.fields@[k].0@ && out@[k].1@
                        == self.fields@[k].1@,
            decreases self.fields.len() - i,
        {
            out.push((self.fields[i].0.as_str(), self.fields[i].1.as_str()));
            i += 1;
        }
        assert(out@.map_values(|p: (&str, &str)| (p.0@, p.1@)) =~= self.pairs());
        out
    }

    pub fn is_empty(&self) -> (r: bool)
        ensures
            r == (self@ == Set::<Pair>::empty()),
    {
        let r = self.fields.len() == 0;
        proof {
            if r {
                assert(self@ =~= Set::empty());
            } else {
                assert(self.pairs().contains(self.pairs()[0]));
                assert(self@.contains(self.pairs()[0]));
            }
        }
        r
    }
}

/// The fields of the pairs that belong to `collection`.
pub open spec fn fields_on(pairs: Seq<Pair>, collection: Seq<char>) -> Seq<Seq<char>>
    decreases pairs.len(),
{
    if pairs.len() == 0 {
        Seq::empty()
    } else if pairs.last().0 == collection {
        fields_on(pairs.drop_last(), collection).push(pairs.last().1)
    } else {
        fields_on(pairs.drop_last(), collection)
    }
}

/// A field is listed for a collection exactly when it is constrained there.
pub proof fn listed_fields_are_the_constrained_ones(
    c: UniqueConstraints,
    collection: Seq<char>,
    field: Seq<char>,
)
    ensures
        fields_on(c.pairs(), collection).contains(field) == c@.contains((collection, field)),
{
    lemma_fields_on(c.pairs(), collection, field);
}

proof fn lemma_fields_on(pairs: Seq<Pair>, collection: Seq<char>, field: Seq<char>)
    ensures
        fields_on(pairs, collection).contains(field) == pairs.contains((collection, field)),
    decreases pairs.len(),
{
    if pairs.len() > 0 {
        let rest = pairs.drop_last();
        lemma_fields_on(rest, collection, field);
        let out = fields_on(rest, collection);
        assert(pairs =~= rest.push(pairs.last()));
        if pairs.last() == (collection, field) {
            assert(pairs[pairs.len() - 1] == (collection, field));
            assert(out.push(field)[out.len() as int] == field);
        }
        if rest.contains((collection, field)) {
            let k = choose|k: int| 0 <= k < rest.len() && rest[k] == (collection, field);
            assert(pairs[k] == (collection, field));
            let j = choose|j: int| 0 <= j < out.len() && out[j] == field;
            if pairs.last().0 == collection {
                assert(out.push(pairs.last().1)[j] == field);
            }
        }
        if pairs.contains((collection, field)) && pairs.last() != (collection, field) {
            let k = choose|k: int| 0 <= k < pairs.len() && pairs[k] == (collection, field);
            assert(rest[k] == (collection, field));
        }
        if fields_on(pairs, collection).contains(field) && pairs.last().0 == collection {
            let all = out.push(pairs.last().1);
            let j = choose|j: int| 0 <= j < all.len() && all[j] == field;
            if j < out.len() {
                assert(out[j] == field);
            }
        }
    }
}

// -- the saved form ----------------------------------------------------------

/// What a saved set starts with: `aDaBtUnq`.
pub open spec fn magic() -> Seq<u8> {
    seq![97, 68, 97, 66, 116, 85, 110, 113]
}

pub const FORMAT_VERSION: u32 = 1;

pub const HASH_START: u64 = 0xcbf2_9ce4_8422_2325;

pub const HASH_FACTOR: u64 = 0x1000_0000_01b3;

/// One step of the checksum.
pub open spec fn hash_step(h: u64, b: u8) -> u64 {
    (h ^ (b as u64)).wrapping_mul(HASH_FACTOR)
}

/// The checksum: each byte is mixed in by exclusive or, then spread by a
/// multiplication modulo two to the sixty-fourth.
pub open spec fn hash(bytes: Seq<u8>) -> u64
    decreases bytes.len(),
{
    if bytes.len() == 0 {
        HASH_START
    } else {
        hash_step(hash(bytes.drop_last()), bytes.last())
    }
}

/// Text as a four-byte length and its bytes.
pub open spec fn string_bytes(s: Seq<char>) -> Seq<u8> {
    spec_u32_to_le_bytes(encode_utf8(s).len() as u32) + encode_utf8(s)
}

pub open spec fn pairs_bytes(pairs: Seq<Pair>) -> Seq<u8>
    decreases pairs.len(),
{
    if pairs.len() == 0 {
        Seq::empty()
    } else {
        string_bytes(pairs[0].0) + (string_bytes(pairs[0].1) + pairs_bytes(pairs.drop_first()))
    }
}

/// The saved form without its checksum.
pub open spec fn body_bytes(pairs: Seq<Pair>) -> Seq<u8> {
    magic() + (spec_u32_to_le_bytes(FORMAT_VERSION) + (spec_u32_to_le_bytes(pairs.len() as u32)
        + pairs_bytes(pairs)))
}

/// The saved form.
pub open spec fn saved_bytes(pairs: Seq<Pair>) -> Seq<u8> {
    body_bytes(pairs) + spec_u64_to_le_bytes(hash(body_bytes(pairs)))
}

/// The four-byte number that starts `s`.
pub open spec fn u32_at(s: Seq<u8>) -> Option<u32> {
    if s.len() < 4 {
        None
    } else {
        Some(spec_u32_from_le_bytes(s.take(4)))
    }
}

/// The text that starts `s` and how many bytes it takes.
pub open spec fn string_at(s: Seq<u8>) -> Option<(Seq<char>, nat)> {
    match u32_at(s) {
        None => None,
        Some(n) => if 4 + n > s.len() || !valid_utf8(s.subrange(4, 4 + n)) {
            None
        } else {
            Some((decode_utf8(s.subrange(4, 4 + n)), (4 + n) as nat))
        },
    }
}

/// The first `n` pairs of `s` and how many bytes they take.
pub open spec fn pairs_at(s: Seq<u8>, n: nat) -> Option<(Seq<Pair>, nat)>
    decreases n,
{
    if n == 0 {
        Some((Seq::empty(), 0))
    } else {
        match string_at(s) {
            None => None,
            Some((c, j)) => match string_at(s.skip(j as int)) {
                None => None,
                Some((f, k)) => match pairs_at(s.skip((j + k) as int), (n - 1) as nat) {
                    None => None,
                    Some((others, used)) => Some((seq![(c, f)] + others, j + k + used)),
                },
            },
        }
    }
}

/// The pairs a body holds, if it is one.
pub open spec fn body_pairs(body: Seq<u8>) -> Option<Seq<Pair>> {
    if body.len() < 16 || body.take(8) != magic() || spec_u32_from_le_bytes(body.subrange(8, 12))
        != FORMAT_VERSION {
        None
    } else {
        match pairs_at(body.skip(16), spec_u32_from_le_bytes(body.subrange(12, 16)) as nat) {
            Some((pairs, used)) if used == body.len() - 16 => Some(pairs),
            _ => None,
        }
    }
}

/// The pairs a saved form holds, if it is one: everything but the last eight
/// bytes is a body, and those eight are its checksum.
pub open spec fn saved_pairs(bytes: Seq<u8>) -> Option<Seq<Pair>> {
    if bytes.len() < 16 {
        None
    } else {
        let body = bytes.take(bytes.len() - 8);
        if spec_u64_from_le_bytes(bytes.skip(bytes.len() - 8)) != hash(body) {
            None
        } else {
            body_pairs(body)
        }
    }
}

/// Whether every length fits its four bytes.
pub open spec fn saveable(pairs: Seq<Pair>) -> bool {
    pairs.len() <= u32::MAX && forall|i: int|
        0 <= i < pairs.len() ==> encode_utf8((#[trigger] pairs[i]).0).len() <= u32::MAX
            && encode_utf8(pairs[i].1).len() <= u32::MAX
}

pub proof fn lemma_string_round_trip(t: Seq<char>, rest: Seq<u8>)
    requires
        encode_utf8(t).len() <= u32::MAX,
    ensures
        string_at(string_bytes(t) + rest) == Some((t, string_bytes(t).len())),
{
    lemma_auto_spec_u32_to_from_le_bytes();
    let n = encode_utf8(t).len();
    let s = string_bytes(t) + rest;
    assert(s.take(4) =~= spec_u32_to_le_bytes(n as u32));
    assert(s.subrange(4, (4 + n) as int) =~= encode_utf8(t));
    encode_utf8_valid_utf8(t);
    encode_utf8_decode_utf8(t);
}

proof fn lemma_pairs_round_trip(pairs: Seq<Pair>, rest: Seq<u8>)
    requires
        saveable(pairs),
    ensures
        pairs_at(pairs_bytes(pairs) + rest, pairs.len()) == Some((pairs, pairs_bytes(pairs).len())),
    decreases pairs.len(),
{
    if pairs.len() > 0 {
        let others = pairs.drop_first();
        let tail = pairs_bytes(others) + rest;
        let s = pairs_bytes(pairs) + rest;
        let c = string_bytes(pairs[0].0);
        let f = string_bytes(pairs[0].1);
        assert(s =~= c + (f + tail));
        lemma_string_round_trip(pairs[0].0, f + tail);
        assert(s.skip(c.len() as int) =~= f + tail);
        lemma_string_round_trip(pairs[0].1, tail);
        assert(s.skip((c.len() + f.len()) as int) =~= tail);
        assert forall|i: int| 0 <= i < others.len() implies encode_utf8(
            (#[trigger] others[i]).0,
        ).len() <= u32::MAX && encode_utf8(others[i].1).len() <= u32::MAX by {
            assert(others[i] == pairs[i + 1]);
        }
        lemma_pairs_round_trip(others, rest);
        assert(seq![pairs[0]] + others =~= pairs);
    } else {
        assert(pairs =~= Seq::empty());
    }
}

/// What is saved reads back.
pub proof fn reading_inverts_writing(pairs: Seq<Pair>)
    requires
        saveable(pairs),
    ensures
        saved_pairs(saved_bytes(pairs)) == Some(pairs),
{
    lemma_auto_spec_u32_to_from_le_bytes();
    lemma_auto_spec_u64_to_from_le_bytes();
    let body = body_bytes(pairs);
    let bytes = saved_bytes(pairs);
    assert(bytes.take(bytes.len() - 8) =~= body);
    assert(bytes.skip(bytes.len() - 8) =~= spec_u64_to_le_bytes(hash(body)));
    assert(body.take(8) =~= magic());
    assert(body.subrange(8, 12) =~= spec_u32_to_le_bytes(FORMAT_VERSION));
    assert(body.subrange(12, 16) =~= spec_u32_to_le_bytes(pairs.len() as u32));
    assert(body.skip(16) =~= pairs_bytes(pairs) + Seq::<u8>::empty());
    lemma_pairs_round_trip(pairs, Seq::empty());
}

/// The factor of the hash has an inverse modulo two to the sixty-fourth.
proof fn lemma_factor_injective(x: u64, y: u64)
    requires
        x.wrapping_mul(HASH_FACTOR) == y.wrapping_mul(HASH_FACTOR),
    ensures
        x == y,
{
    let m: int = 0x1_0000_0000_0000_0000;
    let p: int = HASH_FACTOR as int;
    let q: int = 0xb46d_d957_aff6_957b;
    assert(p * q == 1 + 12398993177650 * m) by (nonlinear_arith)
        requires
            p == 0x1000_0000_01b3,
            q == 0xb46d_d957_aff6_957b,
            m == 0x1_0000_0000_0000_0000,
    ;
    assert forall|z: u64| #[trigger] (((z.wrapping_mul(HASH_FACTOR) as int) * q) % m) == z by {
        let w = z as int;
        assert(z.wrapping_mul(HASH_FACTOR) as int == (w * p) % m);
        lemma_mul_mod_noop_left(w * p, q, m);
        assert((w * p) * q == w + (w * 12398993177650) * m) by (nonlinear_arith)
            requires
                p * q == 1 + 12398993177650 * m,
        ;
        lemma_mod_multiples_vanish(w * 12398993177650, w, m);
        assert(m * (w * 12398993177650) + w == w + (w * 12398993177650) * m) by (nonlinear_arith);
        lemma_small_mod(w as nat, m as nat);
    }
    assert(((x.wrapping_mul(HASH_FACTOR) as int) * q) % m == x);
    assert(((y.wrapping_mul(HASH_FACTOR) as int) * q) % m == y);
}

proof fn lemma_step_injective(x: u64, y: u64, b: u8)
    requires
        x != y,
    ensures
        hash_step(x, b) != hash_step(y, b),
{
    let w = b as u64;
    if hash_step(x, b) == hash_step(y, b) {
        lemma_factor_injective(x ^ w, y ^ w);
        assert(x ^ w == y ^ w ==> x == y) by (bit_vector);
    }
}

proof fn lemma_step_differs(x: u64, a: u8, b: u8)
    requires
        a != b,
    ensures
        hash_step(x, a) != hash_step(x, b),
{
    let v = a as u64;
    let w = b as u64;
    if hash_step(x, a) == hash_step(x, b) {
        lemma_factor_injective(x ^ v, x ^ w);
        assert(x ^ v == x ^ w ==> v == w) by (bit_vector);
    }
}

proof fn lemma_damage_changes_hash(bytes: Seq<u8>, at: int, b: u8)
    requires
        0 <= at < bytes.len(),
        b != bytes[at],
    ensures
        hash(bytes.update(at, b)) != hash(bytes),
    decreases bytes.len(),
{
    let damaged = bytes.update(at, b);
    if at == bytes.len() - 1 {
        assert(damaged.drop_last() =~= bytes.drop_last());
        lemma_step_differs(hash(bytes.drop_last()), bytes.last(), b);
    } else {
        assert(damaged.drop_last() =~= bytes.drop_last().update(at, b));
        lemma_damage_changes_hash(bytes.drop_last(), at, b);
        lemma_step_injective(
            hash(damaged.drop_last()),
            hash(bytes.drop_last()),
            bytes.last(),
        );
    }
}

/// Two strings of bytes of one length that differ in exactly one place have different
/// checksums: one damaged byte is always noticed, not just likely to be.
pub proof fn one_changed_byte_changes_the_checksum(a: Seq<u8>, b: Seq<u8>, at: int)
    requires
        a.len() == b.len(),
        0 <= at < a.len(),
        a[at] != b[at],
        forall|i: int| 0 <= i < a.len() && i != at ==> #[trigger] a[i] == b[i],
    ensures
        hash(a) != hash(b),
{
    assert(b =~= a.update(at, b[at]));
    lemma_damage_changes_hash(a, at, b[at]);
}

proof fn lemma_string_in_more(s: Seq<u8>, more: Seq<u8>)
    requires
        string_at(s) is Some,
    ensures
        string_at(s + more) == string_at(s),
        string_at(s)->Some_0.1 <= s.len(),
{
    let n = spec_u32_from_le_bytes(s.take(4)) as int;
    assert((s + more).take(4) =~= s.take(4));
    assert((s + more).subrange(4, 4 + n) =~= s.subrange(4, 4 + n));
}

proof fn lemma_pairs_in_more(s: Seq<u8>, more: Seq<u8>, n: nat)
    requires
        pairs_at(s, n) is Some,
    ensures
        pairs_at(s + more, n) == pairs_at(s, n),
        pairs_at(s, n)->Some_0.1 <= s.len(),
    decreases n,
{
    if n > 0 {
        lemma_string_in_more(s, more);
        let j = string_at(s)->Some_0.1 as int;
        assert((s + more).skip(j) =~= s.skip(j) + more);
        lemma_string_in_more(s.skip(j), more);
        let k = string_at(s.skip(j))->Some_0.1 as int;
        assert((s + more).skip(j + k) =~= s.skip(j + k) + more);
        lemma_pairs_in_more(s.skip(j + k), more, (n - 1) as nat);
    }
}

/// A saved set cut short anywhere reads as none: no part of it is taken for a whole.
pub proof fn a_saved_set_cut_short_is_refused(pairs: Seq<Pair>, n: int)
    requires
        saveable(pairs),
        0 <= n < saved_bytes(pairs).len(),
    ensures
        saved_pairs(saved_bytes(pairs).take(n)) is None,
{
    lemma_auto_spec_u32_to_from_le_bytes();
    lemma_auto_spec_u64_to_from_le_bytes();
    let full = body_bytes(pairs);
    assert(full.len() == 16 + pairs_bytes(pairs).len());
    assert(saved_bytes(pairs).len() == full.len() + 8);
    let cut = saved_bytes(pairs).take(n);
    if n >= 24 {
        let body = cut.take(n - 8);
        let rest = full.skip(n - 8);
        assert(body =~= full.take(n - 8));
        assert(body.subrange(12, 16) =~= spec_u32_to_le_bytes(pairs.len() as u32));
        let held = body.skip(16);
        assert(held + rest =~= pairs_bytes(pairs) + Seq::<u8>::empty());
        lemma_pairs_round_trip(pairs, Seq::empty());
        if pairs_at(held, pairs.len()) is Some {
            lemma_pairs_in_more(held, rest, pairs.len());
        }
    }
}

/// One damaged byte anywhere in a saved set is always noticed.
pub proof fn one_damaged_byte_is_refused(pairs: Seq<Pair>, at: int, b: u8)
    requires
        0 <= at < saved_bytes(pairs).len(),
        b != saved_bytes(pairs)[at],
    ensures
        saved_pairs(saved_bytes(pairs).update(at, b)) is None,
{
    lemma_auto_spec_u64_to_from_le_bytes();
    let bytes = saved_bytes(pairs);
    let body = body_bytes(pairs);
    let damaged = bytes.update(at, b);
    let n = bytes.len() - 8;
    assert(bytes.take(n) =~= body);
    let tail = damaged.skip(n);
    if at < n {
        assert(damaged.take(n) =~= body.update(at, b));
        assert(tail =~= spec_u64_to_le_bytes(hash(body)));
        lemma_damage_changes_hash(body, at, b);
    } else {
        assert(damaged.take(n) =~= body);
        if spec_u64_from_le_bytes(tail) == hash(body) {
            assert(spec_u64_to_le_bytes(spec_u64_from_le_bytes(tail)) == tail);
            assert(tail[at - n] == b);
            assert(bytes[at] == spec_u64_to_le_bytes(hash(body))[at - n]);
        }
    }
}

pub fn put_str(s: &str, out: &mut Vec<u8>)
    ensures
        final(out)@ == old(out)@ + string_bytes(s@),
{
    let raw = s.as_bytes();
    put_bytes(u32_to_le_bytes(raw.len() as u32).as_slice(), out);
    put_bytes(raw, out);
    assert(out@ =~= old(out)@ + string_bytes(s@));
}

/// The checksum of some bytes.
pub fn checksum(bytes: &[u8]) -> (h: u64)
    ensures
        h == hash(bytes@),
{
    let mut h: u64 = HASH_START;
    let mut i: usize = 0;
    assert(bytes@.take(0) =~= Seq::empty());
    while i < bytes.len()
        invariant
            i <= bytes.len(),
            h == hash(bytes@.take(i as int)),
        decreases bytes.len() - i,
    {
        assert(bytes@.take(i + 1).drop_last() =~= bytes@.take(i as int));
        h = (h ^ (bytes[i] as u64)).wrapping_mul(HASH_FACTOR);
        i += 1;
    }
    assert(bytes@.take(i as int) =~= bytes@);
    h
}

/// The bytes a constraint set is saved as.
pub fn write(constraints: &UniqueConstraints) -> (out: Vec<u8>)
    ensures
        out@ == saved_bytes(constraints.pairs()),
{
    let ghost pairs = constraints.pairs();
    let mut out: Vec<u8> = vec![97, 68, 97, 66, 116, 85, 110, 113];
    assert(out@ =~= magic());
    put_bytes(u32_to_le_bytes(FORMAT_VERSION).as_slice(), &mut out);
    put_bytes(u32_to_le_bytes(constraints.fields.len() as u32).as_slice(), &mut out);
    let ghost head = out@;
    assert(pairs.skip(0) =~= pairs);
    let mut i: usize = 0;
    while i < constraints.fields.len()
        invariant
            i <= constraints.fields.len(),
            pairs == constraints.pairs(),
            pairs.len() == constraints.fields@.len(),
            out@ + pairs_bytes(pairs.skip(i as int)) == head + pairs_bytes(pairs),
        decreases constraints.fields.len() - i,
    {
        let ghost before = out@;
        put_str(constraints.fields[i].0.as_str(), &mut out);
        put_str(constraints.fields[i].1.as_str(), &mut out);
        assert(pairs.skip(i as int).drop_first() =~= pairs.skip(i + 1));
        assert(pairs.skip(i as int)[0] == pairs[i as int]);
        assert(out@ + pairs_bytes(pairs.skip(i + 1)) =~= before + pairs_bytes(
            pairs.skip(i as int),
        ));
        i += 1;
    }
    assert(pairs.skip(i as int) =~= Seq::empty());
    assert(out@ =~= out@ + pairs_bytes(pairs.skip(i as int)));
    assert(out@ =~= body_bytes(pairs));
    let sum: u64 = checksum(out.as_slice());
    put_bytes(u64_to_le_bytes(sum).as_slice(), &mut out);
    out
}

/// The `n` bytes from a place on. Nothing where there are fewer.
pub fn take(buf: &[u8], pos: usize, n: usize) -> (r: Option<&[u8]>)
    ensures
        if pos + n <= buf@.len() {
            r matches Some(s) && s@ == buf@.subrange(pos as int, pos + n)
        } else {
            r is None
        },
{
    if pos > buf.len() || n > buf.len() - pos {
        return None;
    }
    Some(slice_subrange(buf, pos, pos + n))
}

pub fn read_u32(buf: &[u8], pos: usize) -> (r: Option<u32>)
    requires
        pos <= buf@.len(),
    ensures
        r == u32_at(buf@.skip(pos as int)),
{
    match take(buf, pos, 4) {
        Some(s) => {
            assert(s@ =~= buf@.skip(pos as int).take(4));
            Some(u32_from_le_bytes(s))
        },
        None => None,
    }
}

pub fn read_string(buf: &[u8], pos: usize) -> (r: Option<(String, usize)>)
    requires
        pos <= buf@.len(),
    ensures
        match string_at(buf@.skip(pos as int)) {
            Some((t, k)) => r matches Some((s, end)) && s@ == t && end == pos + k && end
                <= buf@.len(),
            None => r is None,
        },
{
    let len: usize = buf.len();
    match read_u32(buf, pos) {
        None => None,
        Some(n) => {
            assert(pos + 4 <= len);
            let start: usize = pos + 4;
            match take(buf, start, n as usize) {
                None => None,
                Some(s) => {
                    assert(s@ =~= buf@.skip(pos as int).subrange(4, 4 + n));
                    match utf8_string(s) {
                        Some(t) => Some((t, start + n as usize)),
                        None => None,
                    }
                },
            }
        },
    }
}

fn read_body(body: &[u8]) -> (r: Option<UniqueConstraints>)
    ensures
        match body_pairs(body@) {
            Some(pairs) => r matches Some(c) && c.wf() && c@ == pairs.to_set(),
            None => r is None,
        },
{
    if body.len() < 16 {
        return None;
    }
    let expected: Vec<u8> = vec![97, 68, 97, 66, 116, 85, 110, 113];
    assert(expected@ =~= magic());
    assert(body@.subrange(0, 8) =~= body@.take(8));
    if !crate::text::bytes_eq(slice_subrange(body, 0, 8), expected.as_slice()) {
        return None;
    }
    if u32_from_le_bytes(slice_subrange(body, 8, 12)) != FORMAT_VERSION {
        return None;
    }
    let n: u32 = u32_from_le_bytes(slice_subrange(body, 12, 16));
    let mut c = UniqueConstraints::default();
    let ghost mut seen: Seq<Pair> = Seq::empty();
    let mut at: usize = 16;
    let mut left: u32 = n;
    let ghost total = pairs_at(body@.skip(16), n as nat);
    assert(seen.to_set() =~= Set::empty());
    while left > 0
        invariant
            16 <= at <= body@.len(),
            left <= n,
            c.wf(),
            c@ == seen.to_set(),
            total == pairs_at(body@.skip(16), n as nat),
            body_pairs(body@) == (match total {
                Some((pairs, used)) if used == body@.len() - 16 => Some(pairs),
                _ => None,
            }),
            match pairs_at(body@.skip(at as int), left as nat) {
                Some((others, used)) => total == Some((seen + others, (at - 16 + used) as nat)),
                None => total is None,
            },
        decreases left,
    {
        let ghost here = body@.skip(at as int);
        match read_string(body, at) {
            None => {
                return None;
            },
            Some((collection, mid)) => {
                assert(here.skip(mid - at) =~= body@.skip(mid as int));
                match read_string(body, mid) {
                    None => {
                        return None;
                    },
                    Some((field, end)) => {
                        let ghost p = (collection@, field@);
                        assert(here.skip(end - at) =~= body@.skip(end as int));
                        proof {
                            if let Some((others, used)) = pairs_at(
                                body@.skip(end as int),
                                (left - 1) as nat,
                            ) {
                                assert(seen + (seq![p] + others) =~= seen.push(p) + others);
                            }
                            seen.lemma_push_to_set_commute(p);
                        }
                        c.add(collection.as_str(), field.as_str());
                        proof {
                            seen = seen.push(p);
                        }
                        at = end;
                        left -= 1;
                    },
                }
            },
        }
    }
    assert(seen + Seq::<Pair>::empty() =~= seen);
    if at != body.len() {
        return None;
    }
    Some(c)
}

/// The constraints that a file says there are, where there is one.
pub open spec fn read_as(bytes: Option<Seq<u8>>) -> Set<Pair> {
    match bytes {
        Some(b) => match saved_pairs(b) {
            Some(pairs) => pairs.to_set(),
            None => Set::empty(),
        },
        None => Set::empty(),
    }
}

/// No file, a saved set cut short anywhere and a saved set with one byte changed all read
/// as no constraints. Cut short, the lengths in what was saved have to be those of its
/// names; a changed byte is noticed in any case.
pub proof fn damage_reads_as_no_constraints(pairs: Seq<Pair>, n: int, at: int, b: u8)
    ensures
        read_as(None) == Set::<Pair>::empty(),
        saveable(pairs) && 0 <= n < saved_bytes(pairs).len() ==> read_as(
            Some(saved_bytes(pairs).take(n)),
        ) == Set::<Pair>::empty(),
        0 <= at < saved_bytes(pairs).len() && b != saved_bytes(pairs)[at] ==> read_as(
            Some(saved_bytes(pairs).update(at, b)),
        ) == Set::<Pair>::empty(),
{
    if saveable(pairs) && 0 <= n < saved_bytes(pairs).len() {
        a_saved_set_cut_short_is_refused(pairs, n);
    }
    if 0 <= at < saved_bytes(pairs).len() && b != saved_bytes(pairs)[at] {
        one_damaged_byte_is_refused(pairs, at, b);
    }
}

/// The constraint set that `bytes` save. No bytes at all, and bytes that are
/// damaged or of a foreign version, mean no constraints.
pub fn read(bytes: Option<&[u8]>) -> (c: UniqueConstraints)
    ensures
        c.wf(),
        c@ == read_as(
            match bytes {
                Some(b) => Some(b@),
                None => None,
            },
        ),
{
    if let Some(b) = bytes {
        if b.len() >= 16 {
            let n: usize = b.len() - 8;
            assert(b@.subrange(0, n as int) =~= b@.take(n as int));
            assert(b@.subrange(n as int, b@.len() as int) =~= b@.skip(n as int));
            let body = slice_subrange(b, 0, n);
            if checksum(body) == u64_from_le_bytes(slice_subrange(b, n, b.len())) {
                if let Some(c) = read_body(body) {
                    return c;
                }
            }
        }
    }
    UniqueConstraints::default()
}

/// A set that was written reads back as itself.
pub proof fn a_constraint_set_survives_saving(c: UniqueConstraints)
    requires
        saveable(c.pairs()),
    ensures
        saved_pairs(saved_bytes(c.pairs())) matches Some(pairs) && pairs.to_set() == c@,
{
    reading_inverts_writing(c.pairs());
}

} // verus!
