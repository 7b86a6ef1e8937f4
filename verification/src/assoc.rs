//! Association lists: what a key finds in a sequence of pairs.

use vstd::prelude::*;

verus! {

/// What the first pair with key `k` holds.
pub open spec fn find<K, V>(s: Seq<(K, V)>, k: K) -> Option<V>
    decreases s.len(),
{
    if s.len() == 0 {
        None
    } else if s[0].0 == k {
        Some(s[0].1)
    } else {
        find(s.drop_first(), k)
    }
}

/// Whether no key occurs twice.
pub open spec fn distinct_keys<K, V>(s: Seq<(K, V)>) -> bool {
    forall|i: int, j: int|
        #![trigger s[i], s[j]]
        0 <= i < j < s.len() ==> s[i].0 != s[j].0
}

pub proof fn lemma_find_at<K, V>(s: Seq<(K, V)>, k: K, i: int)
    requires
        0 <= i < s.len(),
        s[i].0 == k,
        forall|j: int| 0 <= j < i ==> (#[trigger] s[j]).0 != k,
    ensures
        find(s, k) == Some(s[i].1),
    decreases i,
{
    if i > 0 {
        assert(s.drop_first()[i - 1] == s[i]);
        assert forall|j: int| 0 <= j < i - 1 implies (#[trigger] s.drop_first()[j]).0 != k by {
            assert(s.drop_first()[j] == s[j + 1]);
        }
        lemma_find_at(s.drop_first(), k, i - 1);
    }
}

pub proof fn lemma_find_absent<K, V>(s: Seq<(K, V)>, k: K)
    requires
        forall|j: int| 0 <= j < s.len() ==> (#[trigger] s[j]).0 != k,
    ensures
        find(s, k) is None,
    decreases s.len(),
{
    if s.len() > 0 {
        assert forall|j: int| 0 <= j < s.len() - 1 implies (#[trigger] s.drop_first()[j]).0
            != k by {
            assert(s.drop_first()[j] == s[j + 1]);
        }
        lemma_find_absent(s.drop_first(), k);
    }
}

/// What is found is somewhere.
pub proof fn lemma_find_some<K, V>(s: Seq<(K, V)>, k: K) -> (i: int)
    requires
        find(s, k) is Some,
    ensures
        0 <= i < s.len(),
        s[i].0 == k,
        find(s, k) == Some(s[i].1),
        forall|j: int| 0 <= j < i ==> (#[trigger] s[j]).0 != k,
    decreases s.len(),
{
    if s[0].0 == k {
        0
    } else {
        let i = lemma_find_some(s.drop_first(), k);
        assert(s.drop_first()[i] == s[i + 1]);
        assert forall|j: int| 0 <= j < i + 1 implies (#[trigger] s[j]).0 != k by {
            if j > 0 {
                assert(s.drop_first()[j - 1] == s[j]);
            }
        }
        i + 1
    }
}

pub proof fn lemma_find_update<K, V>(s: Seq<(K, V)>, i: int, v: V, other: K)
    requires
        0 <= i < s.len(),
        s[i].0 != other,
    ensures
        find(s.update(i, (s[i].0, v)), other) == find(s, other),
    decreases s.len(),
{
    let u = s.update(i, (s[i].0, v));
    if i > 0 {
        assert(u.drop_first() =~= s.drop_first().update(i - 1, (s[i].0, v)));
        lemma_find_update(s.drop_first(), i - 1, v, other);
    } else {
        assert(u.drop_first() =~= s.drop_first());
    }
}

pub proof fn lemma_find_insert<K, V>(s: Seq<(K, V)>, i: int, e: (K, V), other: K)
    requires
        0 <= i <= s.len(),
        e.0 != other,
    ensures
        find(s.insert(i, e), other) == find(s, other),
    decreases s.len(),
{
    let u = s.insert(i, e);
    if i > 0 {
        assert(u.drop_first() =~= s.drop_first().insert(i - 1, e));
        lemma_find_insert(s.drop_first(), i - 1, e, other);
    } else {
        assert(u.drop_first() =~= s);
    }
}

pub proof fn lemma_find_remove<K, V>(s: Seq<(K, V)>, i: int, other: K)
    requires
        0 <= i < s.len(),
        s[i].0 != other,
    ensures
        find(s.remove(i), other) == find(s, other),
    decreases s.len(),
{
    let u = s.remove(i);
    if i > 0 {
        assert(u.drop_first() =~= s.drop_first().remove(i - 1));
        lemma_find_remove(s.drop_first(), i - 1, other);
    } else {
        assert(u =~= s.drop_first());
    }
}

/// Taking out the only pair of a key leaves nothing to find under it.
pub proof fn lemma_find_removed<K, V>(s: Seq<(K, V)>, i: int)
    requires
        0 <= i < s.len(),
        distinct_keys(s),
    ensures
        find(s.remove(i), s[i].0) is None,
        distinct_keys(s.remove(i)),
{
    let u = s.remove(i);
    assert forall|j: int| 0 <= j < u.len() implies (#[trigger] u[j]).0 != s[i].0 by {
        let at = if j < i { j } else { j + 1 };
        assert(u[j] == s[at]);
    }
    lemma_find_absent(u, s[i].0);
    assert forall|a: int, b: int| 0 <= a < b < u.len() implies (#[trigger] u[a]).0 != (
    #[trigger] u[b]).0 by {
        let x = if a < i { a } else { a + 1 };
        let y = if b < i { b } else { b + 1 };
        assert(u[a] == s[x] && u[b] == s[y]);
    }
}

} // verus!
