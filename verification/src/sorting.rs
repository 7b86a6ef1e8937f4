//! Sorting places by the id that stands there, and numbers.

use vstd::prelude::*;

verus! {

/// An id and a place where it stands.
pub type Spot = (u64, usize);

/// By id, then by place.
pub open spec fn spot_before(a: Spot, b: Spot) -> bool {
    a.0 < b.0 || (a.0 == b.0 && a.1 < b.1)
}

pub open spec fn spots_ordered(s: Seq<Spot>) -> bool {
    forall|i: int, j: int|
        #![trigger s[i], s[j]]
        0 <= i < j < s.len() ==> !spot_before(s[j], s[i])
}

fn merge(a: &Vec<Spot>, b: &Vec<Spot>) -> (out: Vec<Spot>)
    requires
        spots_ordered(a@),
        spots_ordered(b@),
        a@.len() + b@.len() <= usize::MAX,
    ensures
        spots_ordered(out@),
        out@.to_multiset() == a@.to_multiset().add(b@.to_multiset()),
{
    broadcast use vstd::seq_lib::group_to_multiset_ensures;

    let mut out: Vec<Spot> = Vec::new();
    let mut i: usize = 0;
    let mut j: usize = 0;
    assert(a@.take(0) =~= Seq::empty() && b@.take(0) =~= Seq::empty());
    assert(out@.to_multiset() =~= a@.take(0).to_multiset().add(b@.take(0).to_multiset()));
    while i < a.len() || j < b.len()
        invariant
            i <= a.len(),
            j <= b.len(),
            spots_ordered(a@),
            spots_ordered(b@),
            spots_ordered(out@),
            out@.to_multiset() == a@.take(i as int).to_multiset().add(
                b@.take(j as int).to_multiset(),
            ),
            forall|k: int|
                0 <= k < out@.len() && i < a@.len() ==> !spot_before(
                    a@[i as int],
                    #[trigger] out@[k],
                ),
            forall|k: int|
                0 <= k < out@.len() && j < b@.len() ==> !spot_before(
                    b@[j as int],
                    #[trigger] out@[k],
                ),
        decreases a.len() - i + b.len() - j,
    {
        let first: bool = if i == a.len() {
            false
        } else if j == b.len() {
            true
        } else {
            let x = a[i];
            let y = b[j];
            !(y.0 < x.0 || (y.0 == x.0 && y.1 < x.1))
        };
        let ghost held = out@;
        proof {
            held.to_multiset_ensures();
            a@.take(i as int).to_multiset_ensures();
            b@.take(j as int).to_multiset_ensures();
        }
        if first {
            out.push(a[i]);
            assert(out@ =~= held.push(a@[i as int]));
            assert(a@.take(i + 1) =~= a@.take(i as int).push(a@[i as int]));
            i += 1;
        } else {
            out.push(b[j]);
            assert(out@ =~= held.push(b@[j as int]));
            assert(b@.take(j + 1) =~= b@.take(j as int).push(b@[j as int]));
            j += 1;
        }
        assert(out@.to_multiset() =~= a@.take(i as int).to_multiset().add(
            b@.take(j as int).to_multiset(),
        ));
    }
    assert(a@.take(i as int) =~= a@);
    assert(b@.take(j as int) =~= b@);
    out
}

/// The same spots in order.
pub fn sort_spots(s: &Vec<Spot>) -> (out: Vec<Spot>)
    ensures
        spots_ordered(out@),
        out@.to_multiset() == s@.to_multiset(),
{
    assert(s@.subrange(0, s@.len() as int) =~= s@);
    sort_between(s, 0, s.len())
}

fn sort_between(s: &Vec<Spot>, from: usize, to: usize) -> (out: Vec<Spot>)
    requires
        from <= to <= s@.len(),
    ensures
        spots_ordered(out@),
        out@.len() == to - from,
        out@.to_multiset() == s@.subrange(from as int, to as int).to_multiset(),
    decreases to - from,
{
    broadcast use vstd::seq_lib::group_to_multiset_ensures;

    if to - from <= 1 {
        let mut out: Vec<Spot> = Vec::new();
        if from < to {
            out.push(s[from]);
        }
        assert(out@ =~= s@.subrange(from as int, to as int));
        return out;
    }
    let mid: usize = from + (to - from) / 2;
    let a = sort_between(s, from, mid);
    let b = sort_between(s, mid, to);
    let out = merge(&a, &b);
    proof {
        let x = s@.subrange(from as int, mid as int);
        let y = s@.subrange(mid as int, to as int);
        assert(s@.subrange(from as int, to as int) =~= x + y);
        vstd::seq_lib::lemma_multiset_commutative(x, y);
        out@.to_multiset_ensures();
        s@.subrange(from as int, to as int).to_multiset_ensures();
    }
    out
}

/// The ids of the same spots are the same, in whatever order.
proof fn lemma_same_ids(a: Seq<Spot>, b: Seq<Spot>)
    requires
        a.to_multiset() == b.to_multiset(),
    ensures
        a.map_values(|s: Spot| s.0).to_multiset() == b.map_values(|s: Spot| s.0).to_multiset(),
    decreases a.len(),
{
    let id = |s: Spot| s.0;
    let (x, y) = (a.map_values(id), b.map_values(id));
    a.to_multiset_ensures();
    b.to_multiset_ensures();
    if a.len() > 0 {
        let last = a.last();
        assert(a[a.len() - 1] == last);
        assert(a.to_multiset().count(last) > 0);
        assert(b.contains(last));
        let i = choose|i: int| 0 <= i < b.len() && b[i] == last;
        let (c, d) = (a.remove(a.len() - 1), b.remove(i));
        assert(c.to_multiset() =~= d.to_multiset());
        lemma_same_ids(c, d);
        x.to_multiset_ensures();
        y.to_multiset_ensures();
        assert(x.remove(x.len() - 1) =~= c.map_values(id));
        assert(y.remove(i) =~= d.map_values(id));
        assert(x.to_multiset() =~= c.map_values(id).to_multiset().insert(last.0));
        assert(y.to_multiset() =~= d.map_values(id).to_multiset().insert(last.0));
    } else {
        assert(b.len() == 0);
        assert(x =~= y);
    }
}

/// The same numbers in ascending order.
pub fn sort_numbers(v: &Vec<u64>) -> (out: Vec<u64>)
    ensures
        out@.to_multiset() == v@.to_multiset(),
        forall|i: int, j: int| 0 <= i <= j < out@.len() ==> out@[i] <= out@[j],
{
    let ghost id = |s: Spot| s.0;
    let mut spots: Vec<Spot> = Vec::new();
    let mut i: usize = 0;
    while i < v.len()
        invariant
            i <= v@.len(),
            spots@.len() == i,
            forall|k: int| 0 <= k < i ==> (#[trigger] spots@[k]) == (v@[k], 0usize),
        decreases v.len() - i,
    {
        spots.push((v[i], 0));
        i += 1;
    }
    let sorted = sort_spots(&spots);
    let mut out: Vec<u64> = Vec::new();
    let mut j: usize = 0;
    while j < sorted.len()
        invariant
            j <= sorted@.len(),
            out@.len() == j,
            forall|k: int| 0 <= k < j ==> (#[trigger] out@[k]) == sorted@[k].0,
        decreases sorted.len() - j,
    {
        out.push(sorted[j].0);
        j += 1;
    }
    proof {
        lemma_same_ids(sorted@, spots@);
        assert(sorted@.map_values(id) =~= out@);
        assert(spots@.map_values(id) =~= v@);
        assert forall|a: int, b: int| 0 <= a <= b < out@.len() implies out@[a] <= out@[b] by {
            if a < b {
                assert(!spot_before(sorted@[b], sorted@[a]));
            }
        }
    }
    out
}

} // verus!
