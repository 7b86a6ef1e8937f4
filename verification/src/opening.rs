//! Coming back after a restart.
//!
//! Definitions are part of what is stored; what an index holds is derived, and may
//! be cached beside the records. The cache is a shortcut and never the truth: where
//! it is missing or does not decode, the index is built again.

use vstd::prelude::*;
use vstd::string::*;
use crate::action::{kind_named, kind_text, IndexKind};
use crate::caches::{rows_model, Rows};
use crate::database::{nothing_derived, Database};
use crate::derived::{index_models, Derived};
use crate::error::Error;
use crate::expr::Expr;
use crate::index::{
    askable, cached_entries_read_back_or_not_at_all, decode_index_entries, encode_index_entries,
    entries_bytes, entries_read, group_models, index_ok, shape_name, sized, ungrouped, Group, Index,
    IndexModel,
};
use crate::indexing::{a_restored_index_holds_what_was_cached, holds_groups, index_outcome};
use crate::managing::replanned;
use crate::record::Record;
use crate::rows::ascending;
use crate::text::str_eq;
use crate::unique::UniqueConstraints;
use crate::value::value_before;

verus! {

/// The name an index's entries are cached under.
pub open spec fn cache_key(c: Seq<char>, name: Seq<char>, kind: IndexKind) -> Seq<char> {
    "idx:"@ + c + ":"@ + name + ":"@ + kind_text(kind)
}

/// The name an index's entries are cached under.
pub fn index_cache_key(collection: &str, field: &str, kind: IndexKind) -> (s: String)
    ensures
        s@ == cache_key(collection@, field@, kind),
{
    let mut s = String::from_str("idx:");
    s.append(collection);
    s.append(":");
    s.append(field);
    s.append(":");
    s.append(kind.as_str());
    s
}

/// Whether a place holds what is cached under a name, and no other does.
pub open spec fn only_place(s: Seq<(String, Vec<u8>)>, key: Seq<char>, i: int) -> bool {
    &&& 0 <= i < s.len()
    &&& s[i].0@ == key
    &&& forall|j: int| 0 <= j < s.len() && j != i ==> (#[trigger] s[j]).0@ != key
}

/// The entries cached under a name: nothing where there are none, or none that decode.
/// Two indexes may go by one name, as `b:c` of collection `a` and `c` of collection
/// `a:b` do, and then neither's entries are taken for the other's.
pub open spec fn cached_under(s: Seq<(String, Vec<u8>)>, key: Seq<char>) -> Option<Seq<Group>> {
    if exists|i: int| only_place(s, key, i) {
        entries_read(s[choose|i: int| only_place(s, key, i)].1@)
    } else {
        None
    }
}

fn find_cached(cached: &Vec<(String, Vec<u8>)>, key: &str) -> (r: Option<
    Vec<(crate::value::Value, Vec<u64>)>,
>)
    ensures
        match cached_under(cached@, key@) {
            Some(g) => r matches Some(v) && group_models(v@) == g,
            None => r is None,
        },
{
    let mut found: Option<usize> = None;
    let mut i: usize = 0;
    while i < cached.len()
        invariant
            i <= cached@.len(),
            match found {
                None => forall|j: int| 0 <= j < i ==> (#[trigger] cached@[j]).0@ != key@,
                Some(k) => k < i && cached@[k as int].0@ == key@ && forall|j: int|
                    0 <= j < i && j != k ==> (#[trigger] cached@[j]).0@ != key@,
            },
        decreases cached@.len() - i,
    {
        if str_eq(cached[i].0.as_str(), key) {
            if let Some(k) = found {
                proof {
                    if exists|p: int| only_place(cached@, key@, p) {
                        let p = choose|p: int| only_place(cached@, key@, p);
                        assert(cached@[k as int].0@ == key@ && cached@[i as int].0@ == key@);
                        assert(p == k && p == i);
                    }
                }
                return None;
            }
            found = Some(i);
        }
        i += 1;
    }
    match found {
        Some(k) => {
            assert(only_place(cached@, key@, k as int));
            let ghost p = choose|p: int| only_place(cached@, key@, p);
            assert(p == k);
            decode_index_entries(cached[k].1.as_slice())
        },
        None => None,
    }
}

/// Every index with its collection, as they stand in the first `n` lists.
pub open spec fn all_indexes(e: Seq<(Seq<char>, Vec<Index>)>, n: int) -> Seq<(Seq<char>, IndexModel)>
    decreases n,
{
    if n <= 0 {
        Seq::empty()
    } else {
        all_indexes(e, n - 1) + index_models(e[n - 1].1@).map_values(
            |m: IndexModel| (e[n - 1].0, m),
        )
    }
}

/// Whether groups are the entries of an index, each key once and in order, and none
/// without ids.
pub open spec fn groups_of(g: Seq<Group>, m: IndexModel) -> bool {
    &&& ungrouped(g) == m.entries
    &&& forall|i: int, j: int|
        #![trigger g[i], g[j]]
        0 <= i < j < g.len() ==> value_before(g[i].0, g[j].0)
    &&& forall|i: int| 0 <= i < g.len() ==> (#[trigger] g[i]).1.len() > 0
}

/// Whether bytes under a name are an index's entries.
pub open spec fn saved_as(c: Seq<char>, m: IndexModel, name: Seq<char>, bytes: Seq<u8>) -> bool {
    &&& name == cache_key(c, shape_name(m.shape), m.kind)
    &&& exists|g: Seq<Group>| #[trigger]
        groups_of(g, m) && sized(g) && bytes == entries_bytes(g)
}

/// Whether what is to be cached is each index's entries under its name.
pub open spec fn all_saved(d: Derived, out: Seq<(String, Vec<u8>)>) -> bool {
    let e = d.indexes.entries();
    let all = all_indexes(e, e.len() as int);
    &&& out.len() == all.len()
    &&& forall|i: int|
        0 <= i < out.len() ==> saved_as(all[i].0, all[i].1, (#[trigger] out[i]).0@, out[i].1@)
}

impl Database {
    /// A database as it comes back, before its indexes do: its constraints, the
    /// fields that steer placement, and what was switched on.
    pub fn open(
        constraints: UniqueConstraints,
        clustered: &Vec<(String, String)>,
        delta_encoding: bool,
        thread_per_core: bool,
    ) -> (db: Database)
        requires
            constraints.wf(),
        ensures
            db.wf(),
            nothing_derived(db),
            db.unique_constraints == constraints,
            db.delta_encoding == delta_encoding,
            db.thread_per_core == thread_per_core,
            forall|c: Seq<char>| #[trigger]
                optional_text(db.cluster_fields.of(c)) == declared_last(clustered@, c),
    {
        let mut db = Database::new();
        db.unique_constraints = constraints;
        db.delta_encoding = delta_encoding;
        db.thread_per_core = thread_per_core;
        let mut i: usize = 0;
        assert(clustered@.take(0) =~= Seq::empty());
        let ghost start = db;
        while i < clustered.len()
            invariant
                i <= clustered@.len(),
                db.cluster_fields.wf(),
                db == (Database { cluster_fields: db.cluster_fields, ..start }),
                forall|c: Seq<char>| #[trigger]
                    optional_text(db.cluster_fields.of(c)) == declared_last(
                        clustered@.take(i as int),
                        c,
                    ),
            decreases clustered@.len() - i,
        {
            let ghost was = db.cluster_fields;
            assert(clustered@.take(i + 1).drop_last() =~= clustered@.take(i as int));
            db.cluster_fields.put(clustered[i].0.as_str(), clustered[i].1.clone());
            proof {
                assert forall|c: Seq<char>| #[trigger]
                    optional_text(db.cluster_fields.of(c)) == declared_last(
                        clustered@.take(i + 1),
                        c,
                    ) by {
                    if c != clustered@[i as int].0@ {
                        assert(db.cluster_fields.of(c) == was.of(c));
                        assert(optional_text(was.of(c)) == declared_last(
                            clustered@.take(i as int),
                            c,
                        ));
                    }
                }
            }
            i += 1;
        }
        assert(clustered@.take(i as int) =~= clustered@);
        db
    }

    /// Bring an index back that a definition says there was. A kind there is no
    /// index of is passed over.
    pub fn restore_index<E: Fn(&Expr, &Record) -> bool>(
        &mut self,
        collection: &str,
        known: bool,
        name: &str,
        kind: &str,
        cached: &Vec<(String, Vec<u8>)>,
        rows: &Rows,
        eval: &E,
    ) -> (r: Result<bool, Error>)
        requires
            old(self).wf(),
            ascending(rows_model(rows@)),
            askable(*eval),
        ensures
            final(self).wf(),
            match kind_named(kind@) {
                None => r == Ok::<bool, Error>(false) && *final(self) == *old(self),
                Some(k) => index_outcome(
                    old(self).derived,
                    final(self).derived,
                    r,
                    collection@,
                    known,
                    name@,
                    k,
                    cached_under(cached@, cache_key(collection@, name@, k)),
                    rows_model(rows@),
                    *eval,
                ) && if r == Ok::<bool, Error>(true) {
                    replanned(*old(self), *final(self), collection@, true, false)
                } else {
                    *final(self) == *old(self)
                },
            },
    {
        let k = match IndexKind::parse(kind) {
            Some(k) => k,
            None => {
                return Ok(false);
            },
        };
        let key = index_cache_key(collection, name, k);
        match find_cached(cached, key.as_str()) {
            Some(entries) => self.create_index_from(
                collection,
                known,
                name,
                k,
                Some(&entries),
                rows,
                eval,
            ),
            None => self.create_index_from(collection, known, name, k, None, rows, eval),
        }
    }

    /// What to cache so that no index need be built again: each index's entries
    /// under its name.
    pub fn save_derived(&self) -> (out: Vec<(String, Vec<u8>)>)
        requires
            self.wf(),
        ensures
            all_saved(self.derived, out@),
    {
        let ghost e = self.derived.indexes.entries();
        let mut out: Vec<(String, Vec<u8>)> = Vec::new();
        let mut i: usize = 0;
        while i < self.derived.indexes.pairs.len()
            invariant
                i <= self.derived.indexes.pairs@.len(),
                self.wf(),
                e == self.derived.indexes.entries(),
                e.len() == self.derived.indexes.pairs@.len(),
                out@.len() == all_indexes(e, i as int).len(),
                forall|k: int|
                    0 <= k < out@.len() ==> saved_as(
                        all_indexes(e, i as int)[k].0,
                        all_indexes(e, i as int)[k].1,
                        (#[trigger] out@[k]).0@,
                        out@[k].1@,
                    ),
            decreases self.derived.indexes.pairs@.len() - i,
        {
            let collection = self.derived.indexes.pairs[i].0.as_str();
            let list = &self.derived.indexes.pairs[i].1;
            let ghost before = all_indexes(e, i as int);
            let ghost own = index_models(list@).map_values(|m: IndexModel| (collection@, m));
            let ghost after = all_indexes(e, i + 1);
            proof {
                crate::strmap::lemma_named_at(e, i as int);
                assert(e[i as int] == (collection@, *list));
                assert(self.derived.indexes.of(collection@) == Some(*list));
                assert(crate::derived::all_ordered(list@));
                assert(after =~= before + own);
            }
            let mut j: usize = 0;
            while j < list.len()
                invariant
                    j <= list@.len(),
                    crate::derived::all_ordered(list@),
                    after == before + own,
                    own == index_models(list@).map_values(|m: IndexModel| (collection@, m)),
                    own.len() == list@.len(),
                    out@.len() == before.len() + j,
                    forall|k: int|
                        0 <= k < out@.len() ==> saved_as(
                            after[k].0,
                            after[k].1,
                            (#[trigger] out@[k]).0@,
                            out@[k].1@,
                        ),
                decreases list@.len() - j,
            {
                assert(list@[j as int].wf());
                let name = list[j].field();
                let groups = list[j].snapshot();
                let key = index_cache_key(collection, name.as_str(), list[j].kind());
                let bytes = encode_index_entries(&groups);
                let ghost at = before.len() + j;
                assert(after[at] == (collection@, list@[j as int]@));
                assert(groups_of(group_models(groups@), list@[j as int]@));
                assert(saved_as(after[at].0, after[at].1, key@, bytes@));
                out.push((key, bytes));
                j += 1;
            }
            i += 1;
        }
        out
    }
}

/// The field last declared for a collection.
pub open spec fn declared_last(s: Seq<(String, String)>, c: Seq<char>) -> Option<Seq<char>>
    decreases s.len(),
{
    if s.len() == 0 {
        None
    } else if s.last().0@ == c {
        Some(s.last().1@)
    } else {
        declared_last(s.drop_last(), c)
    }
}

pub open spec fn optional_text(s: Option<String>) -> Option<Seq<char>> {
    match s {
        Some(s) => Some(s@),
        None => None,
    }
}

/// An index whose entries were saved comes back with exactly them.
pub proof fn a_saved_index_comes_back(
    m: IndexModel,
    g: Seq<Group>,
    bytes: Seq<u8>,
    read: Seq<Group>,
    new: IndexModel,
)
    requires
        index_ok(m),
        groups_of(g, m),
        sized(g),
        bytes == entries_bytes(g),
        entries_read(bytes) == Some(read),
        index_ok(new),
        holds_groups(new.entries, read),
    ensures
        new.entries == m.entries,
{
    cached_entries_read_back_or_not_at_all(g);
    a_restored_index_holds_what_was_cached(m, g, new);
}

/// The field a collection is placed by is the one declared for it last.
pub proof fn the_last_declaration_counts(s: Seq<(String, String)>, c: Seq<char>)
    ensures
        match declared_last(s, c) {
            Some(f) => exists|i: int|
                0 <= i < s.len() && (#[trigger] s[i]).0@ == c && s[i].1@ == f && forall|j: int|
                    i < j < s.len() ==> (#[trigger] s[j]).0@ != c,
            None => forall|i: int| 0 <= i < s.len() ==> (#[trigger] s[i]).0@ != c,
        },
    decreases s.len(),
{
    if s.len() > 0 {
        let rest = s.drop_last();
        assert(s[s.len() - 1] == s.last());
        if s.last().0@ != c {
            the_last_declaration_counts(rest, c);
            match declared_last(rest, c) {
                Some(f) => {
                    let i = choose|i: int|
                        0 <= i < rest.len() && (#[trigger] rest[i]).0@ == c && rest[i].1@ == f && forall|
                            j: int,
                        |
                            i < j < rest.len() ==> (#[trigger] rest[j]).0@ != c;
                    assert(s[i] == rest[i]);
                    assert forall|j: int| i < j < s.len() implies (#[trigger] s[j]).0@ != c by {
                        if j < rest.len() {
                            assert(rest[j] == s[j]);
                        }
                    }
                },
                None => {
                    assert forall|i: int| 0 <= i < s.len() implies (#[trigger] s[i]).0@ != c by {
                        if i < rest.len() {
                            assert(rest[i] == s[i]);
                        }
                    }
                },
            }
        }
    }
}

/// Entries cached under a name are taken where they stand there alone and decode: where two
/// are cached under one name neither is taken, for nothing tells which is whose.
pub proof fn cached_entries_are_taken_where_they_stand_alone(
    s: Seq<(String, Vec<u8>)>,
    key: Seq<char>,
    i: int,
)
    requires
        0 <= i < s.len(),
        s[i].0@ == key,
    ensures
        (forall|j: int| 0 <= j < s.len() && j != i ==> (#[trigger] s[j]).0@ != key) ==> cached_under(
            s,
            key,
        ) == entries_read(s[i].1@),
        (exists|j: int| 0 <= j < s.len() && j != i && (#[trigger] s[j]).0@ == key) ==> cached_under(
            s,
            key,
        ) is None,
{
    if forall|j: int| 0 <= j < s.len() && j != i ==> (#[trigger] s[j]).0@ != key {
        assert(only_place(s, key, i));
        let p = choose|p: int| only_place(s, key, p);
        assert(only_place(s, key, p));
        if p != i {
            assert(s[p].0@ != key);
        }
    }
    if exists|j: int| 0 <= j < s.len() && j != i && (#[trigger] s[j]).0@ == key {
        let j = choose|j: int| 0 <= j < s.len() && j != i && (#[trigger] s[j]).0@ == key;
        if exists|p: int| only_place(s, key, p) {
            let p = choose|p: int| only_place(s, key, p);
            assert(s[i].0@ == key && s[j].0@ == key);
            assert(p == i && p == j);
        }
    }
}

} // verus!
