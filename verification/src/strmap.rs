//! Maps keyed by text, in the order of their names.

use vstd::prelude::*;
use crate::assoc::{
    distinct_keys, find, lemma_find_absent, lemma_find_at, lemma_find_insert, lemma_find_remove,
    lemma_find_removed, lemma_find_update,
};
use crate::text::{
    lemma_text_before_total, lemma_text_before_transitive, str_eq, str_lt, text_before,
};

verus! {

/// A map from names to values.
#[derive(Debug)]
pub struct StrMap<V> {
    pub pairs: Vec<(String, V)>,
}

/// Pairs by what their names say.
pub open spec fn keyed<V>(s: Seq<(String, V)>) -> Seq<(Seq<char>, V)> {
    s.map_values(|p: (String, V)| (p.0@, p.1))
}

/// Whether names ascend, none twice.
pub open spec fn names_ascend<V>(s: Seq<(Seq<char>, V)>) -> bool {
    forall|i: int, j: int|
        #![trigger s[i], s[j]]
        0 <= i < j < s.len() ==> text_before(s[i].0, s[j].0)
}

/// Names in order are distinct.
pub proof fn lemma_names_distinct<V>(s: Seq<(Seq<char>, V)>)
    requires
        names_ascend(s),
    ensures
        distinct_keys(s),
{
    assert forall|i: int, j: int|
        #![trigger s[i], s[j]]
        0 <= i < j < s.len() implies s[i].0 != s[j].0 by {
        lemma_text_before_total(s[i].0, s[j].0);
    }
}

/// Where a name stands is where it is found.
pub proof fn lemma_named_at<V>(s: Seq<(Seq<char>, V)>, i: int)
    requires
        names_ascend(s),
        0 <= i < s.len(),
    ensures
        find(s, s[i].0) == Some(s[i].1),
{
    lemma_names_distinct(s);
    lemma_find_at(s, s[i].0, i);
}

/// Giving the value at one place another changes what its name finds and nothing
/// else.
pub proof fn lemma_revalued<V>(s: Seq<(Seq<char>, V)>, i: int, v: V)
    requires
        names_ascend(s),
        0 <= i < s.len(),
    ensures
        names_ascend(s.update(i, (s[i].0, v))),
        find(s.update(i, (s[i].0, v)), s[i].0) == Some(v),
        forall|other: Seq<char>|
            other != s[i].0 ==> #[trigger] find(s.update(i, (s[i].0, v)), other) == find(s, other),
{
    let after = s.update(i, (s[i].0, v));
    assert forall|a: int, b: int|
        #![trigger after[a], after[b]]
        0 <= a < b < after.len() implies text_before(after[a].0, after[b].0) by {
        assert(after[a].0 == s[a].0 && after[b].0 == s[b].0);
    }
    lemma_named_at(after, i);
    assert forall|other: Seq<char>| other != s[i].0 implies #[trigger] find(after, other) == find(
        s,
        other,
    ) by {
        lemma_find_update(s, i, v, other);
    }
}

impl<V> StrMap<V> {
    pub open spec fn entries(&self) -> Seq<(Seq<char>, V)> {
        keyed(self.pairs@)
    }

    pub open spec fn wf(&self) -> bool {
        names_ascend(self.entries())
    }

    /// What a name maps to.
    pub open spec fn of(&self, name: Seq<char>) -> Option<V> {
        find(self.entries(), name)
    }

    pub fn new() -> (m: StrMap<V>)
        ensures
            m.wf(),
            m.pairs@ == Seq::<(String, V)>::empty(),
            forall|name: Seq<char>| #[trigger] m.of(name) is None,
    {
        let m: StrMap<V> = StrMap { pairs: Vec::new() };
        assert(m.entries() =~= Seq::empty());
        m
    }

    /// Where a name stands, or where it would.
    pub fn place(&self, name: &str) -> (at: usize)
        requires
            self.wf(),
        ensures
            at <= self.pairs@.len(),
            forall|k: int| 0 <= k < at ==> text_before((#[trigger] self.entries()[k]).0, name@),
            forall|k: int|
                at <= k < self.pairs@.len() ==> !text_before(
                    (#[trigger] self.entries()[k]).0,
                    name@,
                ),
            match self.of(name@) {
                Some(v) => at < self.pairs@.len() && self.pairs@[at as int].0@ == name@
                    && self.pairs@[at as int].1 == v,
                None => at == self.pairs@.len() || self.pairs@[at as int].0@ != name@,
            },
    {
        let ghost s = self.entries();
        let mut at: usize = 0;
        while at < self.pairs.len() && str_lt(self.pairs[at].0.as_str(), name)
            invariant
                at <= self.pairs.len(),
                s == self.entries(),
                s.len() == self.pairs@.len(),
                forall|k: int| 0 <= k < at ==> text_before((#[trigger] s[k]).0, name@),
            decreases self.pairs.len() - at,
        {
            assert(s[at as int].0 == self.pairs@[at as int].0@);
            at += 1;
        }
        proof {
            if at < s.len() {
                assert(s[at as int].0 == self.pairs@[at as int].0@);
            }
            assert forall|k: int| at <= k < s.len() implies !text_before(
                (#[trigger] s[k]).0,
                name@,
            ) by {
                if k > at && text_before(s[k].0, name@) {
                    lemma_text_before_transitive(s[at as int].0, s[k].0, name@);
                }
            }
            lemma_text_before_total(name@, name@);
            if at < s.len() && s[at as int].0 == name@ {
                lemma_named_at(s, at as int);
            } else {
                assert forall|j: int| 0 <= j < s.len() implies (#[trigger] s[j]).0 != name@ by {
                    if j > at && s[j].0 == name@ {
                        assert(text_before(s[at as int].0, s[j].0));
                    }
                }
                lemma_find_absent(s, name@);
            }
        }
        at
    }

    /// Where a name stands, if it does.
    pub fn position(&self, name: &str) -> (at: Option<usize>)
        requires
            self.wf(),
        ensures
            match self.of(name@) {
                Some(v) => at matches Some(i) && i < self.pairs@.len()
                    && self.pairs@[i as int].0@ == name@ && self.pairs@[i as int].1 == v,
                None => at is None,
            },
    {
        let at = self.place(name);
        if at < self.pairs.len() && str_eq(self.pairs[at].0.as_str(), name) {
            Some(at)
        } else {
            None
        }
    }

    pub fn get(&self, name: &str) -> (r: Option<&V>)
        requires
            self.wf(),
        ensures
            match self.of(name@) {
                Some(v) => r matches Some(w) && *w == v,
                None => r is None,
            },
    {
        match self.position(name) {
            Some(i) => Some(&self.pairs[i].1),
            None => None,
        }
    }

    pub fn contains(&self, name: &str) -> (r: bool)
        requires
            self.wf(),
        ensures
            r == (self.of(name@) is Some),
    {
        self.position(name).is_some()
    }

    /// Give a name a value, whether or not it had one.
    pub fn put(&mut self, name: &str, value: V)
        requires
            old(self).wf(),
        ensures
            final(self).wf(),
            final(self).of(name@) == Some(value),
            forall|other: Seq<char>|
                other != name@ ==> #[trigger] final(self).of(other) == old(self).of(other),
    {
        let ghost before = self.entries();
        let at = self.place(name);
        if at < self.pairs.len() && str_eq(self.pairs[at].0.as_str(), name) {
            self.pairs.set(at, (name.to_owned(), value));
            let ghost after = before.update(at as int, (name@, value));
            assert(self.entries() =~= after);
            proof {
                assert forall|a: int, b: int|
                    #![trigger after[a], after[b]]
                    0 <= a < b < after.len() implies text_before(after[a].0, after[b].0) by {
                    assert(after[a].0 == before[a].0 && after[b].0 == before[b].0);
                }
                lemma_named_at(after, at as int);
                assert forall|other: Seq<char>| other != name@ implies #[trigger] find(
                    after,
                    other,
                ) == find(before, other) by {
                    lemma_find_update(before, at as int, value, other);
                }
            }
        } else {
            self.pairs.insert(at, (name.to_owned(), value));
            let ghost after = before.insert(at as int, (name@, value));
            assert(self.entries() =~= after);
            proof {
                assert forall|a: int, b: int|
                    #![trigger after[a], after[b]]
                    0 <= a < b < after.len() implies text_before(after[a].0, after[b].0) by {
                    if b == at {
                        assert(after[a] == before[a]);
                    } else if a == at {
                        assert(after[b] == before[b - 1]);
                        assert(!text_before(before[b - 1].0, name@));
                        lemma_text_before_total(before[b - 1].0, name@);
                        if before[b - 1].0 == name@ {
                            assert(text_before(before[at as int].0, before[b - 1].0));
                        }
                    } else {
                        let x = if a < at { a } else { a - 1 };
                        let y = if b < at { b } else { b - 1 };
                        assert(after[a] == before[x] && after[b] == before[y]);
                    }
                }
                lemma_named_at(after, at as int);
                assert forall|other: Seq<char>| other != name@ implies #[trigger] find(
                    after,
                    other,
                ) == find(before, other) by {
                    lemma_find_insert(before, at as int, (name@, value), other);
                }
            }
        }
    }

    /// Take a name out, if it is there. Returns whether it was.
    pub fn remove(&mut self, name: &str) -> (had: bool)
        requires
            old(self).wf(),
        ensures
            final(self).wf(),
            had == (old(self).of(name@) is Some),
            final(self).of(name@) is None,
            forall|other: Seq<char>|
                other != name@ ==> #[trigger] final(self).of(other) == old(self).of(other),
    {
        let ghost before = self.entries();
        match self.position(name) {
            None => false,
            Some(at) => {
                self.pairs.remove(at);
                let ghost after = before.remove(at as int);
                assert(self.entries() =~= after);
                proof {
                    lemma_names_distinct(before);
                    lemma_find_removed(before, at as int);
                    assert forall|a: int, b: int|
                        #![trigger after[a], after[b]]
                        0 <= a < b < after.len() implies text_before(after[a].0, after[b].0) by {
                        let x = if a < at { a } else { a + 1 };
                        let y = if b < at { b } else { b + 1 };
                        assert(after[a] == before[x] && after[b] == before[y]);
                    }
                    assert forall|other: Seq<char>| other != name@ implies #[trigger] find(
                        after,
                        other,
                    ) == find(before, other) by {
                        lemma_find_remove(before, at as int, other);
                    }
                }
                true
            },
        }
    }
}

/// A map with the value at one place changed is a map: the name there has the new
/// value, and every other name what it had.
pub proof fn lemma_value_changed<V>(before: StrMap<V>, after: StrMap<V>, k: int)
    requires
        before.wf(),
        after.pairs@.len() == before.pairs@.len(),
        0 <= k < before.pairs@.len(),
        after.pairs@[k].0@ == before.pairs@[k].0@,
        forall|i: int|
            0 <= i < before.pairs@.len() && i != k ==> #[trigger] after.pairs@[i]
                == before.pairs@[i],
    ensures
        after.wf(),
        after.of(before.pairs@[k].0@) == Some(after.pairs@[k].1),
        forall|other: Seq<char>|
            other != before.pairs@[k].0@ ==> #[trigger] after.of(other) == before.of(other),
{
    let e = before.entries();
    let v = after.pairs@[k].1;
    assert(after.entries() =~= e.update(k, (e[k].0, v)));
    lemma_revalued(e, k, v);
    assert forall|other: Seq<char>| other != before.pairs@[k].0@ implies #[trigger] after.of(other)
        == before.of(other) by {
        assert(find(e.update(k, (e[k].0, v)), other) == find(e, other));
    }
}

} // verus!
