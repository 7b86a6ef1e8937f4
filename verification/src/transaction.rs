//! Multi-statement transactions under snapshot isolation.
//!
//! Writes are buffered and laid over what the snapshot holds, so a transaction
//! reads its own writes and nothing committed after it began. At commit every
//! key is judged before any is applied. Under the strict guarantee the rows that
//! were read and the collections that were scanned are judged as well, which is what
//! closes write skew.

use vstd::prelude::*;
use crate::assoc::find;
use crate::caches::{rows_model, Rows};
use crate::constraints::{Breach, BreachModel};
use crate::error::{Error, ErrorModel};
use crate::expr::push_new;
use crate::record::{Record, RecordModel};
use crate::rows::{ascending, drop_row, find_last, put_row, RowsModel};
use crate::text::{
    contains_str, lemma_text_before_total, lemma_text_before_transitive, str_eq, str_lt,
    text_before, texts,
};

verus! {

/// A record of a collection.
pub type Key = (Seq<char>, u64);

/// Keys are visited by collection, then by id.
pub open spec fn key_before(a: Key, b: Key) -> bool {
    text_before(a.0, b.0) || (a.0 == b.0 && a.1 < b.1)
}

pub proof fn lemma_key_before(a: Key, b: Key, c: Key)
    ensures
        key_before(a, b) || key_before(b, a) || a == b,
        !(key_before(a, b) && key_before(b, a)),
        !key_before(a, a),
        key_before(a, b) && key_before(b, c) ==> key_before(a, c),
{
    lemma_text_before_total(a.0, b.0);
    lemma_text_before_total(b.0, c.0);
    lemma_text_before_total(a.0, a.0);
    if text_before(a.0, b.0) && text_before(b.0, c.0) {
        lemma_text_before_transitive(a.0, b.0, c.0);
    }
}

/// Whether keys stand in order, none twice.
pub open spec fn keys_ordered<V>(s: Seq<(Key, V)>) -> bool {
    forall|i: int, j: int|
        #![trigger s[i], s[j]]
        0 <= i < j < s.len() ==> key_before(s[i].0, s[j].0)
}

/// One buffered write.
#[derive(Debug, PartialEq, Eq)]
pub enum Write {
    Put(Record),
    Delete,
}

/// What a write leaves: a record, or none.
pub type Left = Option<RecordModel>;

impl Write {
    pub open spec fn left(&self) -> Left {
        match self {
            Write::Put(r) => Some(r.model()),
            Write::Delete => None,
        }
    }
}

/// A multi-statement transaction.
pub struct Transaction {
    id: u64,
    snapshot: u64,
    writes: Vec<(String, u64, Write)>,
    reads: Vec<(String, u64)>,
    scans: Vec<String>,
}

/// Buffered writes in the order they are visited.
pub type Writes = Seq<(Key, Left)>;

/// What a transaction sees under a key: its own write, or what the snapshot
/// holds.
pub open spec fn seen(writes: Writes, key: Key, in_snapshot: Left) -> Left {
    match find(writes, key) {
        Some(left) => left,
        None => in_snapshot,
    }
}

pub open spec fn write_models(s: Seq<(String, u64, Write)>) -> Writes {
    s.map_values(|w: (String, u64, Write)| ((w.0@, w.1), w.2.left()))
}

pub open spec fn read_models(s: Seq<(String, u64)>) -> Seq<Key> {
    s.map_values(|r: (String, u64)| (r.0@, r.1))
}

/// What an optional record holds.
pub open spec fn left_of(r: Option<&Record>) -> Left {
    match r {
        Some(rec) => Some(rec.model()),
        None => None,
    }
}

fn compare_keys(a: &str, i: u64, b: &str, j: u64) -> (before: bool)
    ensures
        before == key_before((a@, i), (b@, j)),
{
    str_lt(a, b) || (str_eq(a, b) && i < j)
}

impl Transaction {
    pub closed spec fn ident(&self) -> u64 {
        self.id
    }

    /// The moment the transaction reads as of.
    pub closed spec fn taken_at(&self) -> u64 {
        self.snapshot
    }

    pub closed spec fn pending(&self) -> Writes {
        write_models(self.writes@)
    }

    /// The rows that were read through the snapshot, in order.
    pub closed spec fn observed(&self) -> Seq<Key> {
        read_models(self.reads@)
    }

    /// The collections that were scanned, in order and each once. A row that was not
    /// there is as much of what a scan observed as one that was.
    pub closed spec fn scanned(&self) -> Seq<Seq<char>> {
        texts(self.scans@)
    }

    pub open spec fn wf(&self) -> bool {
        keys_ordered(self.pending())
    }

    pub fn new(id: u64, snapshot: u64) -> (t: Transaction)
        ensures
            t.wf(),
            t.ident() == id,
            t.taken_at() == snapshot,
            t.pending() == Writes::empty(),
            t.observed() == Seq::<Key>::empty(),
            t.scanned() == Seq::<Seq<char>>::empty(),
    {
        let t = Transaction { id, snapshot, writes: Vec::new(), reads: Vec::new(), scans: Vec::new() };
        assert(t.pending() =~= Writes::empty());
        assert(t.observed() =~= Seq::empty());
        assert(t.scanned() =~= Seq::empty());
        t
    }

    pub fn id(&self) -> (id: u64)
        ensures
            id == self.ident(),
    {
        self.id
    }

    pub fn snapshot(&self) -> (at: u64)
        ensures
            at == self.taken_at(),
    {
        self.snapshot
    }

    pub fn is_empty(&self) -> (r: bool)
        ensures
            r == (self.pending().len() == 0),
    {
        self.writes.len() == 0
    }

    pub fn write_count(&self) -> (n: usize)
        ensures
            n == self.pending().len(),
    {
        self.writes.len()
    }

    pub fn read_count(&self) -> (n: usize)
        ensures
            n == self.observed().len(),
    {
        self.reads.len()
    }

    pub fn scan_count(&self) -> (n: usize)
        ensures
            n == self.scanned().len(),
    {
        self.scans.len()
    }

    /// The `i`-th collection that was scanned.
    pub fn scan_at(&self, i: usize) -> (c: &str)
        requires
            i < self.scanned().len(),
        ensures
            c@ == self.scanned()[i as int],
    {
        self.scans[i].as_str()
    }

    /// The `i`-th write to be applied.
    pub fn write_at(&self, i: usize) -> (w: (&str, u64, &Write))
        requires
            i < self.pending().len(),
        ensures
            ((w.0@, w.1), w.2.left()) == self.pending()[i as int],
    {
        let e = &self.writes[i];
        (e.0.as_str(), e.1, &e.2)
    }

    /// The `i`-th row that was read.
    pub fn read_at(&self, i: usize) -> (r: (&str, u64))
        requires
            i < self.observed().len(),
        ensures
            (r.0@, r.1) == self.observed()[i as int],
    {
        let e = &self.reads[i];
        (e.0.as_str(), e.1)
    }

    fn place(&self, collection: &str, id: u64) -> (at: usize)
        requires
            self.wf(),
        ensures
            at <= self.pending().len(),
            forall|k: int|
                0 <= k < at ==> key_before((#[trigger] self.pending()[k]).0, (collection@, id)),
            forall|k: int|
                at <= k < self.pending().len() ==> !key_before(
                    (#[trigger] self.pending()[k]).0,
                    (collection@, id),
                ),
            match find(self.pending(), (collection@, id)) {
                Some(left) => at < self.pending().len() && self.pending()[at as int] == (
                    (collection@, id),
                    left,
                ),
                None => at == self.pending().len() || self.pending()[at as int].0 != (
                    collection@,
                    id,
                ),
            },
    {
        let ghost p = self.pending();
        let ghost want = (collection@, id);
        let mut at: usize = 0;
        while at < self.writes.len() && compare_keys(
            self.writes[at].0.as_str(),
            self.writes[at].1,
            collection,
            id,
        )
            invariant
                at <= self.writes.len(),
                p == self.pending(),
                p.len() == self.writes@.len(),
                want == (collection@, id),
                forall|k: int| 0 <= k < at ==> key_before((#[trigger] p[k]).0, want),
            decreases self.writes.len() - at,
        {
            assert(p[at as int].0 == (self.writes@[at as int].0@, self.writes@[at as int].1));
            at += 1;
        }
        proof {
            if at < p.len() {
                assert(p[at as int].0 == (self.writes@[at as int].0@, self.writes@[at as int].1));
            }
            assert forall|k: int| at <= k < p.len() implies !key_before(
                (#[trigger] p[k]).0,
                want,
            ) by {
                if k > at {
                    lemma_key_before(p[at as int].0, p[k].0, want);
                }
            }
            lemma_find_key(p, want, at as int);
        }
        at
    }

    fn holds_at(&self, at: usize, collection: &str, id: u64) -> (r: bool)
        ensures
            r == (at < self.pending().len() && self.pending()[at as int].0 == (collection@, id)),
    {
        at < self.writes.len() && self.writes[at].1 == id && str_eq(
            self.writes[at].0.as_str(),
            collection,
        )
    }

    /// What this transaction itself wrote under a key, if it did.
    pub fn own(&self, collection: &str, id: u64) -> (r: Option<&Write>)
        requires
            self.wf(),
        ensures
            match find(self.pending(), (collection@, id)) {
                Some(left) => r matches Some(w) && w.left() == left,
                None => r is None,
            },
    {
        let at = self.place(collection, id);
        if self.holds_at(at, collection, id) {
            Some(&self.writes[at].2)
        } else {
            None
        }
    }

    fn note_read(&mut self, collection: &str, id: u64)
        requires
            old(self).wf(),
        ensures
            final(self).wf(),
            final(self).ident() == old(self).ident(),
            final(self).taken_at() == old(self).taken_at(),
            final(self).scanned() == old(self).scanned(),
            final(self).pending() == old(self).pending(),
            final(self).observed() == noted(old(self).observed(), (collection@, id)),
    {
        let ghost before = self.observed();
        let mut i: usize = 0;
        while i < self.reads.len()
            invariant
                i <= self.reads.len(),
                self.wf(),
                *self == *old(self),
                before == self.observed(),
                before.len() == self.reads@.len(),
                forall|k: int| 0 <= k < i ==> #[trigger] before[k] != (collection@, id),
            decreases self.reads.len() - i,
        {
            assert(before[i as int] == (self.reads@[i as int].0@, self.reads@[i as int].1));
            if self.reads[i].1 == id && str_eq(self.reads[i].0.as_str(), collection) {
                assert(before.contains((collection@, id)));
                return;
            }
            i += 1;
        }
        self.reads.push((collection.to_owned(), id));
        assert(self.observed() =~= before.push((collection@, id)));
        assert(!before.contains((collection@, id)));
    }

    fn note_scan(&mut self, collection: &str)
        requires
            old(self).wf(),
        ensures
            final(self).wf(),
            final(self).ident() == old(self).ident(),
            final(self).taken_at() == old(self).taken_at(),
            final(self).pending() == old(self).pending(),
            final(self).observed() == old(self).observed(),
            final(self).scanned() == push_new(old(self).scanned(), collection@),
    {
        if !contains_str(&self.scans, collection) {
            let ghost before = self.scanned();
            self.scans.push(collection.to_owned());
            assert(self.scanned() =~= before.push(collection@));
        }
    }

    fn put_write(&mut self, collection: &str, id: u64, w: Write)
        requires
            old(self).wf(),
        ensures
            final(self).wf(),
            final(self).ident() == old(self).ident(),
            final(self).taken_at() == old(self).taken_at(),
            final(self).scanned() == old(self).scanned(),
            final(self).observed() == old(self).observed(),
            written(old(self).pending(), (collection@, id), w.left(), final(self).pending()),
    {
        let ghost before = self.pending();
        let ghost key = (collection@, id);
        let ghost left = w.left();
        let at = self.place(collection, id);
        if self.holds_at(at, collection, id) {
            self.writes.set(at, (collection.to_owned(), id, w));
            let ghost after = before.update(at as int, (key, left));
            assert(self.pending() =~= after);
            proof {
                assert forall|a: int, b: int| 0 <= a < b < after.len() implies key_before(
                    (#[trigger] after[a]).0,
                    (#[trigger] after[b]).0,
                ) by {
                    assert(after[a].0 == before[a].0 && after[b].0 == before[b].0);
                }
                assert forall|j: int| 0 <= j < at implies (#[trigger] after[j]).0 != key by {
                    assert(after[j] == before[j]);
                    lemma_key_before(key, key, key);
                }
                crate::assoc::lemma_find_at(after, key, at as int);
                assert forall|k: Key| k != key implies #[trigger] find(after, k) == find(
                    before,
                    k,
                ) by {
                    crate::assoc::lemma_find_update(before, at as int, left, k);
                }
            }
        } else {
            self.writes.insert(at, (collection.to_owned(), id, w));
            let ghost after = before.insert(at as int, (key, left));
            assert(self.pending() =~= after);
            proof {
                assert forall|a: int, b: int| 0 <= a < b < after.len() implies key_before(
                    (#[trigger] after[a]).0,
                    (#[trigger] after[b]).0,
                ) by {
                    if b == at {
                        assert(after[a] == before[a]);
                    } else if a == at {
                        assert(after[b] == before[b - 1]);
                        lemma_key_before(key, before[b - 1].0, key);
                        if before[b - 1].0 == key {
                            lemma_key_before(before[at as int].0, key, key);
                        }
                    } else {
                        let x = if a < at { a } else { a - 1 };
                        let y = if b < at { b } else { b - 1 };
                        assert(after[a] == before[x] && after[b] == before[y]);
                    }
                }
                assert forall|j: int| 0 <= j < at implies (#[trigger] after[j]).0 != key by {
                    assert(after[j] == before[j]);
                    lemma_key_before(key, key, key);
                }
                crate::assoc::lemma_find_at(after, key, at as int);
                assert forall|k: Key| k != key implies #[trigger] find(after, k) == find(
                    before,
                    k,
                ) by {
                    crate::assoc::lemma_find_insert(before, at as int, (key, left), k);
                }
            }
        }
    }

    /// Read as this transaction sees it, given what the snapshot holds. A row
    /// observed through the snapshot, absence included, joins the rows that were
    /// read.
    pub fn get(&mut self, collection: &str, id: u64, in_snapshot: Option<&Record>) -> (r: Option<
        Record,
    >)
        requires
            old(self).wf(),
        ensures
            final(self).wf(),
            final(self).ident() == old(self).ident(),
            final(self).taken_at() == old(self).taken_at(),
            final(self).scanned() == old(self).scanned(),
            final(self).pending() == old(self).pending(),
            final(self).observed() == if find(old(self).pending(), (collection@, id)) is Some {
                old(self).observed()
            } else {
                noted(old(self).observed(), (collection@, id))
            },
            match seen(old(self).pending(), (collection@, id), left_of(in_snapshot)) {
                Some(m) => r matches Some(rec) && rec.model() == m,
                None => r is None,
            },
    {
        match self.own(collection, id) {
            Some(w) => match w {
                Write::Put(r) => Some(r.dup()),
                Write::Delete => None,
            },
            None => {
                self.note_read(collection, id);
                match in_snapshot {
                    Some(r) => Some(r.dup()),
                    None => None,
                }
            },
        }
    }

    /// Whether this transaction sees a record, reading as [`Transaction::get`]
    /// does.
    fn sees(&mut self, collection: &str, id: u64, in_snapshot: Option<&Record>) -> (r: bool)
        requires
            old(self).wf(),
        ensures
            final(self).wf(),
            final(self).ident() == old(self).ident(),
            final(self).taken_at() == old(self).taken_at(),
            final(self).scanned() == old(self).scanned(),
            final(self).pending() == old(self).pending(),
            final(self).observed() == if find(old(self).pending(), (collection@, id)) is Some {
                old(self).observed()
            } else {
                noted(old(self).observed(), (collection@, id))
            },
            r == (seen(
                old(self).pending(),
                (collection@, id),
                left_of(in_snapshot),
            ) is Some),
    {
        self.get(collection, id, in_snapshot).is_some()
    }

    /// Buffer an insert. Refused exactly when this transaction already sees a
    /// record at `id`.
    pub fn insert(
        &mut self,
        collection: &str,
        id: u64,
        rec: Record,
        in_snapshot: Option<&Record>,
    ) -> (r: Result<(), Error>)
        requires
            old(self).wf(),
        ensures
            final(self).wf(),
            final(self).ident() == old(self).ident(),
            final(self).taken_at() == old(self).taken_at(),
            final(self).scanned() == old(self).scanned(),
            final(self).observed() == if find(old(self).pending(), (collection@, id)) is Some {
                old(self).observed()
            } else {
                noted(old(self).observed(), (collection@, id))
            },
            match r {
                Ok(_) => seen(
                    old(self).pending(),
                    (collection@, id),
                    left_of(in_snapshot),
                ) is None && written(
                    old(self).pending(),
                    (collection@, id),
                    Some(rec.model()),
                    final(self).pending(),
                ),
                Err(e) => seen(
                    old(self).pending(),
                    (collection@, id),
                    left_of(in_snapshot),
                ) is Some && e@ == ErrorModel::RecordExists(id) && final(self).pending() == old(self).pending(),
            },
    {
        if self.sees(collection, id, in_snapshot) {
            return Err(Error::RecordExists(id));
        }
        self.put_write(collection, id, Write::Put(rec));
        Ok(())
    }

    /// Buffer an upsert. Returns whether this transaction already saw a record.
    pub fn update(
        &mut self,
        collection: &str,
        id: u64,
        rec: Record,
        in_snapshot: Option<&Record>,
    ) -> (existed: bool)
        requires
            old(self).wf(),
        ensures
            final(self).wf(),
            final(self).ident() == old(self).ident(),
            final(self).taken_at() == old(self).taken_at(),
            final(self).scanned() == old(self).scanned(),
            final(self).observed() == if find(old(self).pending(), (collection@, id)) is Some {
                old(self).observed()
            } else {
                noted(old(self).observed(), (collection@, id))
            },
            existed == (seen(
                old(self).pending(),
                (collection@, id),
                left_of(in_snapshot),
            ) is Some),
            written(
                old(self).pending(),
                (collection@, id),
                Some(rec.model()),
                final(self).pending(),
            ),
    {
        let existed = self.sees(collection, id, in_snapshot);
        self.put_write(collection, id, Write::Put(rec));
        existed
    }

    /// Buffer a delete. Returns whether this transaction already saw a record.
    pub fn delete(&mut self, collection: &str, id: u64, in_snapshot: Option<&Record>) -> (existed:
        bool)
        requires
            old(self).wf(),
        ensures
            final(self).wf(),
            final(self).ident() == old(self).ident(),
            final(self).taken_at() == old(self).taken_at(),
            final(self).scanned() == old(self).scanned(),
            final(self).observed() == if find(old(self).pending(), (collection@, id)) is Some {
                old(self).observed()
            } else {
                noted(old(self).observed(), (collection@, id))
            },
            existed == (seen(
                old(self).pending(),
                (collection@, id),
                left_of(in_snapshot),
            ) is Some),
            written(old(self).pending(), (collection@, id), None, final(self).pending()),
    {
        let existed = self.sees(collection, id, in_snapshot);
        self.put_write(collection, id, Write::Delete);
        existed
    }
}

impl Transaction {
    /// Scan a collection as this transaction sees it: the snapshot's rows with
    /// its own writes laid over them, ascending by id. Every row that comes back
    /// joins the rows that were read, and the collection those that were scanned.
    pub fn scan(&mut self, collection: &str, in_snapshot: &Rows) -> (out: Rows)
        requires
            old(self).wf(),
        ensures
            final(self).wf(),
            final(self).ident() == old(self).ident(),
            final(self).taken_at() == old(self).taken_at(),
            final(self).scanned() == push_new(old(self).scanned(), collection@),
            final(self).pending() == old(self).pending(),
            final(self).observed() == all_noted(
                old(self).observed(),
                collection@,
                rows_model(out@),
            ),
            ascending(rows_model(out@)),
            forall|id: u64| #[trigger]
                find(rows_model(out@), id) == seen(
                    old(self).pending(),
                    (collection@, id),
                    find_last(rows_model(in_snapshot@), id),
                ),
    {
        let ghost all = rows_model(in_snapshot@);
        let ghost p = self.pending();
        let mut out: Rows = Vec::new();
        let mut i: usize = 0;
        assert(rows_model(out@) =~= Seq::empty());
        while i < in_snapshot.len()
            invariant
                i <= in_snapshot.len(),
                *self == *old(self),
                all == rows_model(in_snapshot@),
                ascending(rows_model(out@)),
                forall|id: u64| #[trigger]
                    find(rows_model(out@), id) == find_last(all.take(i as int), id),
            decreases in_snapshot.len() - i,
        {
            let ghost before = rows_model(out@);
            let r = &in_snapshot[i];
            put_row(&mut out, r.0, r.1.dup());
            proof {
                let next = all.take(i + 1);
                assert(next.drop_last() =~= all.take(i as int));
                assert(next.last() == (r.0, r.1.model()));
                assert forall|id: u64| #[trigger] find(rows_model(out@), id) == find_last(
                    next,
                    id,
                ) by {
                    assert(find(before, id) == find_last(all.take(i as int), id));
                }
            }
            i += 1;
        }
        assert(all.take(i as int) =~= all);
        let mut j: usize = 0;
        proof {
            assert forall|id: u64| #[trigger] find(rows_model(out@), id) == seen(
                p.take(0),
                (collection@, id),
                find_last(all, id),
            ) by {
                assert(p.take(0) =~= Seq::empty());
            }
        }
        while j < self.writes.len()
            invariant
                j <= self.writes.len(),
                *self == *old(self),
                self.wf(),
                p == self.pending(),
                p.len() == self.writes@.len(),
                ascending(rows_model(out@)),
                forall|id: u64| #[trigger]
                    find(rows_model(out@), id) == seen(
                        p.take(j as int),
                        (collection@, id),
                        find_last(all, id),
                    ),
            decreases self.writes.len() - j,
        {
            let ghost before = rows_model(out@);
            let w = &self.writes[j];
            let ghost now = p.take(j as int);
            let ghost next = p.take(j + 1);
            let ghost key = (w.0@, w.1);
            if str_eq(w.0.as_str(), collection) {
                match &w.2 {
                    Write::Put(r) => {
                        put_row(&mut out, w.1, r.dup());
                    },
                    Write::Delete => {
                        drop_row(&mut out, w.1);
                    },
                }
            }
            proof {
                assert(p[j as int] == (key, w.2.left()));
                assert(next =~= now.insert(j as int, (key, w.2.left())));
                assert forall|id: u64| #[trigger] find(rows_model(out@), id) == seen(
                    next,
                    (collection@, id),
                    find_last(all, id),
                ) by {
                    let k = (collection@, id);
                    assert(find(before, id) == seen(now, k, find_last(all, id)));
                    if k == key {
                        assert forall|a: int| 0 <= a < j implies (#[trigger] next[a]).0 != key by {
                            assert(next[a] == p[a]);
                            assert(key_before(p[a].0, p[j as int].0));
                            lemma_key_before(key, key, key);
                        }
                        crate::assoc::lemma_find_at(next, key, j as int);
                    } else {
                        crate::assoc::lemma_find_insert(now, j as int, (key, w.2.left()), k);
                    }
                }
            }
            j += 1;
        }
        assert(p.take(j as int) =~= p);
        self.note_scan(collection);
        let mut k: usize = 0;
        let ghost read = self.observed();
        let ghost rows = rows_model(out@);
        assert(rows.take(0) =~= Seq::empty());
        while k < out.len()
            invariant
                k <= out.len(),
                self.wf(),
                self.ident() == old(self).ident(),
                self.taken_at() == old(self).taken_at(),
                self.scanned() == push_new(old(self).scanned(), collection@),
                self.pending() == p,
                rows == rows_model(out@),
                self.observed() == all_noted(read, collection@, rows.take(k as int)),
            decreases out.len() - k,
        {
            self.note_read(collection, out[k].0);
            proof {
                assert(rows.take(k + 1).drop_last() =~= rows.take(k as int));
                assert(rows.take(k + 1).last().0 == out@[k as int].0);
            }
            k += 1;
        }
        assert(rows.take(k as int) =~= rows);
        out
    }

    /// Whether this transaction may be applied, given where its keys and the rows
    /// it read stand. Nothing to write always may. Otherwise the writes are
    /// judged in order: a key written since the snapshot is a conflict, and a
    /// record that may not be stored is refused as its standing says. Under the
    /// strict guarantee a row that was read, and is not itself overwritten, is
    /// held to the same rule, and so is every collection that was scanned: anything
    /// written in it since the snapshot is something the scan did not see. `rows`
    /// tells when each row that was read was last written, and `scans` what was
    /// written last in each collection that was scanned.
    pub fn judge(
        &self,
        keys: &Vec<Standing>,
        rows: &Vec<Option<u64>>,
        scans: &Vec<Option<LastWrite>>,
        strict: bool,
    ) -> (r: Result<(), Unfit>)
        requires
            self.wf(),
            keys@.len() == self.pending().len(),
            rows@.len() == self.observed().len(),
            scans@.len() == self.scanned().len(),
        ensures
            match judged(
                self.pending(),
                self.observed(),
                self.scanned(),
                self.taken_at(),
                standing_models(keys@),
                rows@,
                scans@,
                strict,
            ) {
                None => r is Ok,
                Some(fault) => r matches Err(e) && e@ == fault,
            },
    {
        if self.writes.len() == 0 {
            return Ok(());
        }
        let ghost p = self.pending();
        let ghost s = standing_models(keys@);
        let mut i: usize = 0;
        while i < self.writes.len()
            invariant
                i <= self.writes.len(),
                p == self.pending(),
                p.len() == self.writes@.len(),
                keys@.len() == p.len(),
                s == standing_models(keys@),
                write_fault(p, self.taken_at(), s, 0) == write_fault(
                    p,
                    self.taken_at(),
                    s,
                    i as int,
                ),
            decreases self.writes.len() - i,
        {
            let w = &self.writes[i];
            assert(p[i as int] == ((w.0@, w.1), w.2.left()));
            assert(s[i as int] == (keys@[i as int]@));
            if is_after(&keys[i].latest, self.snapshot) {
                return Err(
                    Unfit::Failed(Error::TransactionConflict { collection: w.0.clone(), id: w.1 }),
                );
            }
            match &w.2 {
                Write::Put(_) => match &keys[i].refused {
                    Some(e) => {
                        return Err(e.dup());
                    },
                    None => {},
                },
                Write::Delete => {},
            }
            i += 1;
        }
        if strict {
            let ghost o = self.observed();
            let mut j: usize = 0;
            while j < self.reads.len()
                invariant
                    j <= self.reads.len(),
                    strict,
                    self.wf(),
                    p == self.pending(),
                    p.len() > 0,
                    s == standing_models(keys@),
                    write_fault(p, self.taken_at(), s, 0) is None,
                    o == self.observed(),
                    o.len() == self.reads@.len(),
                    rows@.len() == o.len(),
                    read_fault(p, o, self.taken_at(), rows@, 0) == read_fault(
                        p,
                        o,
                        self.taken_at(),
                        rows@,
                        j as int,
                    ),
                decreases self.reads.len() - j,
            {
                let r = &self.reads[j];
                assert(o[j as int] == (r.0@, r.1));
                if self.own(r.0.as_str(), r.1).is_none() && is_after(&rows[j], self.snapshot) {
                    return Err(
                        Unfit::Failed(
                            Error::TransactionConflict { collection: r.0.clone(), id: r.1 },
                        ),
                    );
                }
                j += 1;
            }
            let ghost c = self.scanned();
            let mut k: usize = 0;
            while k < self.scans.len()
                invariant
                    k <= self.scans.len(),
                    strict,
                    p == self.pending(),
                    p.len() > 0,
                    s == standing_models(keys@),
                    o == self.observed(),
                    write_fault(p, self.taken_at(), s, 0) is None,
                    read_fault(p, o, self.taken_at(), rows@, 0) is None,
                    c == self.scanned(),
                    c.len() == self.scans@.len(),
                    scans@.len() == c.len(),
                    scan_fault(c, self.taken_at(), scans@, 0) == scan_fault(
                        c,
                        self.taken_at(),
                        scans@,
                        k as int,
                    ),
                decreases self.scans.len() - k,
            {
                assert(c[k as int] == self.scans@[k as int]@);
                if let Some(w) = scans[k] {
                    if w.at > self.snapshot {
                        return Err(
                            Unfit::Failed(
                                Error::TransactionConflict {
                                    collection: self.scans[k].clone(),
                                    id: w.id,
                                },
                            ),
                        );
                    }
                }
                k += 1;
            }
        }
        Ok(())
    }
}

/// What was written last in a collection, and when.
#[derive(Clone, Copy, Debug, PartialEq, Eq, Structural)]
pub struct LastWrite {
    pub at: u64,
    pub id: u64,
}

/// Why a transaction may not be applied.
#[derive(Debug, PartialEq, Eq)]
pub enum Unfit {
    /// A key is in conflict, or its record may not be stored.
    Failed(Error),
    /// A record has a value that may not be shared, and is.
    Shared { collection: String, breach: Breach },
}

/// What an [`Unfit`] says.
pub enum UnfitModel {
    Failed(ErrorModel),
    Shared(Seq<char>, BreachModel),
}

impl View for Unfit {
    type V = UnfitModel;

    open spec fn view(&self) -> UnfitModel {
        match self {
            Unfit::Failed(e) => UnfitModel::Failed(e@),
            Unfit::Shared { collection, breach } => UnfitModel::Shared(collection@, breach@),
        }
    }
}

impl Unfit {
    pub fn dup(&self) -> (e: Unfit)
        ensures
            e@ == self@,
    {
        match self {
            Unfit::Failed(e) => Unfit::Failed(e.dup()),
            Unfit::Shared { collection, breach } => Unfit::Shared {
                collection: collection.clone(),
                breach: breach.dup(),
            },
        }
    }
}

/// What storage knows of a key that is to be written: when it was last written,
/// and why the new record may not be stored, if it may not.
#[derive(Debug, PartialEq, Eq)]
pub struct Standing {
    pub latest: Option<u64>,
    pub refused: Option<Unfit>,
}

/// What a [`Standing`] says.
pub struct StandingModel {
    pub latest: Option<u64>,
    pub refused: Option<UnfitModel>,
}

impl View for Standing {
    type V = StandingModel;

    open spec fn view(&self) -> StandingModel {
        StandingModel {
            latest: self.latest,
            refused: match self.refused {
                Some(e) => Some(e@),
                None => None,
            },
        }
    }
}

pub open spec fn standing_models(s: Seq<Standing>) -> Seq<StandingModel> {
    s.map_values(|k: Standing| k@)
}

/// Whether something was written after a moment.
pub open spec fn later(latest: Option<u64>, at: u64) -> bool {
    latest matches Some(t) && t > at
}

fn is_after(latest: &Option<u64>, at: u64) -> (r: bool)
    ensures
        r == later(*latest, at),
{
    match latest {
        Some(t) => *t > at,
        None => false,
    }
}

/// The conflict a key is in.
pub open spec fn conflict(key: Key) -> UnfitModel {
    UnfitModel::Failed(ErrorModel::TransactionConflict { collection: key.0, id: key.1 })
}

/// The first fault among the writes from the `i`-th on.
pub open spec fn write_fault(w: Writes, at: u64, s: Seq<StandingModel>, i: int) -> Option<
    UnfitModel,
>
    decreases w.len() - i,
{
    if i < 0 || i >= w.len() {
        None
    } else if later(s[i].latest, at) {
        Some(conflict(w[i].0))
    } else if w[i].1 is Some && s[i].refused is Some {
        s[i].refused
    } else {
        write_fault(w, at, s, i + 1)
    }
}

/// The first stale row among those read from the `i`-th on and not overwritten.
pub open spec fn read_fault(
    w: Writes,
    o: Seq<Key>,
    at: u64,
    rows: Seq<Option<u64>>,
    i: int,
) -> Option<UnfitModel>
    decreases o.len() - i,
{
    if i < 0 || i >= o.len() {
        None
    } else if find(w, o[i]) is None && later(rows[i], at) {
        Some(conflict(o[i]))
    } else {
        read_fault(w, o, at, rows, i + 1)
    }
}

/// Whether something was written in a collection after a moment.
pub open spec fn written_since(last: Option<LastWrite>, at: u64) -> bool {
    last matches Some(w) && w.at > at
}

/// The first collection that went stale among those scanned from the `i`-th on.
pub open spec fn scan_fault(c: Seq<Seq<char>>, at: u64, scans: Seq<Option<LastWrite>>, i: int) -> Option<
    UnfitModel,
>
    decreases c.len() - i,
{
    if i < 0 || i >= c.len() {
        None
    } else if written_since(scans[i], at) {
        Some(conflict((c[i], scans[i]->Some_0.id)))
    } else {
        scan_fault(c, at, scans, i + 1)
    }
}

/// Why a transaction may not be applied, if it may not.
pub open spec fn judged(
    w: Writes,
    o: Seq<Key>,
    c: Seq<Seq<char>>,
    at: u64,
    s: Seq<StandingModel>,
    rows: Seq<Option<u64>>,
    scans: Seq<Option<LastWrite>>,
    strict: bool,
) -> Option<UnfitModel> {
    if w.len() == 0 {
        None
    } else {
        match write_fault(w, at, s, 0) {
            Some(e) => Some(e),
            None => if strict {
                match read_fault(w, o, at, rows, 0) {
                    Some(e) => Some(e),
                    None => scan_fault(c, at, scans, 0),
                }
            } else {
                None
            },
        }
    }
}

/// The first committer wins: a transaction that writes a key which was written
/// since its snapshot is not applied, under either guarantee.
pub proof fn the_first_committer_wins(
    w: Writes,
    o: Seq<Key>,
    c: Seq<Seq<char>>,
    at: u64,
    s: Seq<StandingModel>,
    rows: Seq<Option<u64>>,
    scans: Seq<Option<LastWrite>>,
    strict: bool,
    i: int,
)
    requires
        0 <= i < w.len(),
        s.len() == w.len(),
        later(s[i].latest, at),
    ensures
        judged(w, o, c, at, s, rows, scans, strict) is Some,
{
    lemma_write_fault(w, at, s, 0, i);
}

proof fn lemma_write_fault(w: Writes, at: u64, s: Seq<StandingModel>, from: int, i: int)
    requires
        0 <= from <= i < w.len(),
        later(s[i].latest, at) || (w[i].1 is Some && s[i].refused is Some),
    ensures
        write_fault(w, at, s, from) is Some,
    decreases i - from,
{
    if from < i {
        lemma_write_fault(w, at, s, from + 1, i);
    }
}

proof fn lemma_read_fault(
    w: Writes,
    o: Seq<Key>,
    at: u64,
    rows: Seq<Option<u64>>,
    from: int,
    i: int,
)
    requires
        0 <= from <= i < o.len(),
        find(w, o[i]) is None,
        later(rows[i], at),
    ensures
        read_fault(w, o, at, rows, from) is Some,
    decreases i - from,
{
    if from < i {
        lemma_read_fault(w, o, at, rows, from + 1, i);
    }
}

proof fn lemma_scan_fault(
    c: Seq<Seq<char>>,
    at: u64,
    scans: Seq<Option<LastWrite>>,
    from: int,
    i: int,
)
    requires
        0 <= from <= i < c.len(),
        written_since(scans[i], at),
    ensures
        scan_fault(c, at, scans, from) is Some,
    decreases i - from,
{
    if from < i {
        lemma_scan_fault(c, at, scans, from + 1, i);
    }
}

/// Under the strict guarantee a transaction with something to write is applied
/// only if nothing it rests on is stale: no key it writes, no row it read and
/// leaves alone, and nothing in a collection it scanned, was written since its
/// snapshot. So of two transactions that each write what the other read, the second
/// to commit is refused, and so is one that scanned a collection a row has since been
/// put into.
pub proof fn a_strict_commit_rests_on_nothing_stale(
    w: Writes,
    o: Seq<Key>,
    c: Seq<Seq<char>>,
    at: u64,
    s: Seq<StandingModel>,
    rows: Seq<Option<u64>>,
    scans: Seq<Option<LastWrite>>,
)
    requires
        w.len() > 0,
        s.len() == w.len(),
        rows.len() == o.len(),
        scans.len() == c.len(),
        judged(w, o, c, at, s, rows, scans, true) is None,
    ensures
        forall|i: int| 0 <= i < w.len() ==> !later((#[trigger] s[i]).latest, at),
        forall|i: int|
            0 <= i < o.len() && find(w, #[trigger] o[i]) is None ==> !later(rows[i], at),
        forall|i: int| 0 <= i < c.len() ==> !written_since(#[trigger] scans[i], at),
{
    assert forall|i: int| 0 <= i < c.len() implies !written_since(#[trigger] scans[i], at) by {
        if written_since(scans[i], at) {
            lemma_scan_fault(c, at, scans, 0, i);
        }
    }
    assert forall|i: int| 0 <= i < w.len() implies !later((#[trigger] s[i]).latest, at) by {
        if later(s[i].latest, at) {
            lemma_write_fault(w, at, s, 0, i);
        }
    }
    assert forall|i: int| 0 <= i < o.len() && find(w, #[trigger] o[i]) is None implies !later(
        rows[i],
        at,
    ) by {
        if later(rows[i], at) {
            lemma_read_fault(w, o, at, rows, 0, i);
        }
    }
}

/// A transaction is applied exactly where nothing stands against it. One with nothing to
/// write always is. One that writes is, where no key it writes was written after its
/// snapshot and no record it puts may not be stored; and under the strict guarantee,
/// where besides no row it read and does not write itself was written after its
/// snapshot, and nothing was in a collection it scanned. What was written at the
/// snapshot or before it stands against nothing.
pub proof fn a_transaction_is_applied_where_nothing_stands_against_it(
    w: Writes,
    o: Seq<Key>,
    c: Seq<Seq<char>>,
    at: u64,
    s: Seq<StandingModel>,
    rows: Seq<Option<u64>>,
    scans: Seq<Option<LastWrite>>,
    strict: bool,
)
    requires
        s.len() == w.len(),
        rows.len() == o.len(),
        scans.len() == c.len(),
    ensures
        judged(w, o, c, at, s, rows, scans, strict) is None <==> w.len() == 0 || {
            &&& forall|i: int|
                #![trigger s[i]]
                0 <= i < w.len() ==> (s[i].latest matches Some(t) ==> t <= at) && (w[i].1 is Some
                    ==> s[i].refused is None)
            &&& strict ==> forall|i: int|
                #![trigger o[i]]
                0 <= i < o.len() && !writes_itself(w, o[i]) ==> (rows[i] matches Some(t) ==> t
                    <= at)
            &&& strict ==> forall|i: int|
                #![trigger scans[i]]
                0 <= i < c.len() ==> (scans[i] matches Some(l) ==> l.at <= at)
        },
{
    if w.len() > 0 {
        lemma_first_write_fault(w, at, s, 0);
        lemma_first_read_fault(w, o, at, rows, 0);
        lemma_first_scan_fault(c, at, scans, 0);
        assert forall|i: int| #![trigger o[i]] 0 <= i < o.len() implies writes_itself(w, o[i])
            == (find(w, o[i]) is Some) by {
            lemma_writes_itself(w, o[i]);
        }
    }
}

/// Whether some write is under a key.
pub open spec fn writes_itself(w: Writes, key: Key) -> bool {
    exists|k: int| 0 <= k < w.len() && (#[trigger] w[k]).0 == key
}

proof fn lemma_writes_itself(w: Writes, key: Key)
    ensures
        writes_itself(w, key) == (find(w, key) is Some),
    decreases w.len(),
{
    if find(w, key) is Some {
        let k = crate::assoc::lemma_find_some(w, key);
        assert(w[k].0 == key);
    } else if writes_itself(w, key) {
        let k = choose|k: int| 0 <= k < w.len() && (#[trigger] w[k]).0 == key;
        let rest = w.drop_first();
        assert(w[0].0 != key);
        assert(rest[k - 1].0 == key);
        lemma_writes_itself(rest, key);
    }
}

/// What a transaction is refused for: the first of its writes that may not be applied,
/// and only where all may, under the strict guarantee, the first row it read that went
/// stale, and then the first collection it scanned that did.
pub proof fn a_refusal_names_what_stands_first(
    w: Writes,
    o: Seq<Key>,
    c: Seq<Seq<char>>,
    at: u64,
    s: Seq<StandingModel>,
    rows: Seq<Option<u64>>,
    scans: Seq<Option<LastWrite>>,
    strict: bool,
    e: UnfitModel,
)
    requires
        s.len() == w.len(),
        rows.len() == o.len(),
        scans.len() == c.len(),
        judged(w, o, c, at, s, rows, scans, strict) == Some(e),
    ensures
        ({
            let stale = |t: Option<u64>| t matches Some(t) && t > at;
            let bad = |i: int| stale(s[i].latest) || (w[i].1 is Some && s[i].refused is Some);
            let old = |i: int| !writes_itself(w, o[i]) && stale(rows[i]);
            ||| exists|i: int|
                #![trigger bad(i)]
                0 <= i < w.len() && bad(i) && (forall|k: int| 0 <= k < i ==> !#[trigger] bad(k))
                    && if stale(s[i].latest) {
                    e == UnfitModel::Failed(
                        ErrorModel::TransactionConflict { collection: w[i].0.0, id: w[i].0.1 },
                    )
                } else {
                    s[i].refused == Some(e)
                }
            ||| strict && (forall|k: int| 0 <= k < w.len() ==> !#[trigger] bad(k)) && exists|i: int|
                #![trigger old(i)]
                0 <= i < o.len() && old(i) && (forall|k: int| 0 <= k < i ==> !#[trigger] old(k))
                    && e == UnfitModel::Failed(
                    ErrorModel::TransactionConflict { collection: o[i].0, id: o[i].1 },
                )
            ||| strict && (forall|k: int| 0 <= k < w.len() ==> !#[trigger] bad(k)) && (forall|k: int|
                0 <= k < o.len() ==> !#[trigger] old(k)) && exists|i: int|
                #![trigger scans[i]]
                0 <= i < c.len() && (scans[i] matches Some(l) && l.at > at && e
                    == UnfitModel::Failed(
                    ErrorModel::TransactionConflict { collection: c[i], id: l.id },
                )) && (forall|k: int|
                    0 <= k < i ==> ((#[trigger] scans[k]) matches Some(l) ==> l.at <= at))
        }),
{
    let stale = |t: Option<u64>| t matches Some(t) && t > at;
    let bad = |i: int| stale(s[i].latest) || (w[i].1 is Some && s[i].refused is Some);
    let old = |i: int| !writes_itself(w, o[i]) && stale(rows[i]);
    assert forall|i: int| #![trigger o[i]] 0 <= i < o.len() implies writes_itself(w, o[i]) == (find(
        w,
        o[i],
    ) is Some) by {
        lemma_writes_itself(w, o[i]);
    }
    lemma_first_write_fault(w, at, s, 0);
    lemma_first_read_fault(w, o, at, rows, 0);
    lemma_first_scan_fault(c, at, scans, 0);
    if write_fault(w, at, s, 0) is Some {
        let i = choose|i: int|
            #![trigger s[i]]
            0 <= i < w.len() && bad(i) && (forall|k: int| #![trigger s[k]] 0 <= k < i ==> !bad(k))
                && write_fault(w, at, s, 0) == if stale(s[i].latest) {
                Some(conflict(w[i].0))
            } else {
                s[i].refused
            };
        assert(bad(i));
    } else {
        assert forall|k: int| 0 <= k < w.len() implies !#[trigger] bad(k) by {
            assert(s[k] == s[k]);
        }
        if read_fault(w, o, at, rows, 0) is Some {
            let i = choose|i: int|
                #![trigger o[i]]
                0 <= i < o.len() && old(i) && (forall|k: int|
                    #![trigger o[k]]
                    0 <= k < i ==> !old(k)) && read_fault(w, o, at, rows, 0) == Some(conflict(o[i]));
            assert(old(i));
        } else {
            assert forall|k: int| 0 <= k < o.len() implies !#[trigger] old(k) by {
                assert(o[k] == o[k]);
            }
        }
    }
}

proof fn lemma_first_write_fault(w: Writes, at: u64, s: Seq<StandingModel>, from: int)
    requires
        0 <= from <= w.len(),
        s.len() == w.len(),
    ensures
        ({
            let stale = |t: Option<u64>| t matches Some(t) && t > at;
            let bad = |i: int| stale(s[i].latest) || (w[i].1 is Some && s[i].refused is Some);
            match write_fault(w, at, s, from) {
                None => forall|i: int| #![trigger s[i]] from <= i < w.len() ==> !bad(i),
                Some(e) => exists|i: int|
                    #![trigger s[i]]
                    from <= i < w.len() && bad(i) && (forall|k: int|
                        #![trigger s[k]]
                        from <= k < i ==> !bad(k)) && Some(e) == if stale(s[i].latest) {
                        Some(conflict(w[i].0))
                    } else {
                        s[i].refused
                    },
            }
        }),
    decreases w.len() - from,
{
    if from < w.len() {
        let stale = |t: Option<u64>| t matches Some(t) && t > at;
        let bad = |i: int| stale(s[i].latest) || (w[i].1 is Some && s[i].refused is Some);
        if bad(from) {
            assert(s[from] == s[from]);
        } else {
            lemma_first_write_fault(w, at, s, from + 1);
            if write_fault(w, at, s, from) is Some {
                let i = choose|i: int|
                    #![trigger s[i]]
                    from + 1 <= i < w.len() && bad(i) && (forall|k: int|
                        #![trigger s[k]]
                        from + 1 <= k < i ==> !bad(k)) && write_fault(w, at, s, from)
                        == if stale(s[i].latest) {
                        Some(conflict(w[i].0))
                    } else {
                        s[i].refused
                    };
                assert(forall|k: int| #![trigger s[k]] from <= k < i ==> !bad(k));
            }
        }
    }
}

proof fn lemma_first_read_fault(w: Writes, o: Seq<Key>, at: u64, rows: Seq<Option<u64>>, from: int)
    requires
        0 <= from <= o.len(),
        rows.len() == o.len(),
    ensures
        ({
            let stale = |t: Option<u64>| t matches Some(t) && t > at;
            let old = |i: int| find(w, o[i]) is None && stale(rows[i]);
            match read_fault(w, o, at, rows, from) {
                None => forall|i: int| #![trigger o[i]] from <= i < o.len() ==> !old(i),
                Some(e) => exists|i: int|
                    #![trigger o[i]]
                    from <= i < o.len() && old(i) && (forall|k: int|
                        #![trigger o[k]]
                        from <= k < i ==> !old(k)) && e == conflict(o[i]),
            }
        }),
    decreases o.len() - from,
{
    if from < o.len() {
        let stale = |t: Option<u64>| t matches Some(t) && t > at;
        let old = |i: int| find(w, o[i]) is None && stale(rows[i]);
        if old(from) {
            assert(o[from] == o[from]);
        } else {
            lemma_first_read_fault(w, o, at, rows, from + 1);
            if let Some(e) = read_fault(w, o, at, rows, from) {
                let i = choose|i: int|
                    #![trigger o[i]]
                    from + 1 <= i < o.len() && old(i) && (forall|k: int|
                        #![trigger o[k]]
                        from + 1 <= k < i ==> !old(k)) && e == conflict(o[i]);
                assert(forall|k: int| #![trigger o[k]] from <= k < i ==> !old(k));
            }
        }
    }
}

proof fn lemma_first_scan_fault(
    c: Seq<Seq<char>>,
    at: u64,
    scans: Seq<Option<LastWrite>>,
    from: int,
)
    requires
        0 <= from <= c.len(),
        scans.len() == c.len(),
    ensures
        match scan_fault(c, at, scans, from) {
            None => forall|i: int|
                #![trigger scans[i]]
                from <= i < c.len() ==> (scans[i] matches Some(l) ==> l.at <= at),
            Some(e) => exists|i: int|
                #![trigger scans[i]]
                from <= i < c.len() && (scans[i] matches Some(l) && l.at > at && e == conflict(
                    (c[i], l.id),
                )) && (forall|k: int|
                    from <= k < i ==> ((#[trigger] scans[k]) matches Some(l) ==> l.at <= at)),
        },
    decreases c.len() - from,
{
    if from < c.len() {
        if written_since(scans[from], at) {
            assert(scans[from] matches Some(l) && l.at > at);
        } else {
            lemma_first_scan_fault(c, at, scans, from + 1);
            if let Some(e) = scan_fault(c, at, scans, from) {
                let i = choose|i: int|
                    #![trigger scans[i]]
                    from + 1 <= i < c.len() && (scans[i] matches Some(l) && l.at > at && e
                        == conflict((c[i], l.id))) && (forall|k: int|
                        from + 1 <= k < i ==> ((#[trigger] scans[k]) matches Some(l) ==> l.at <= at));
                assert(forall|k: int|
                    from <= k < i ==> ((#[trigger] scans[k]) matches Some(l) ==> l.at <= at));
            }
        }
    }
}

/// What was read is remembered: a row that is read joins those that were, each once and
/// in the order they were first read, and so does every row of a scan.
pub proof fn what_was_read_is_remembered(
    reads: Seq<Key>,
    key: Key,
    collection: Seq<char>,
    rows: RowsModel,
)
    ensures
        noted(reads, key).contains(key),
        noted(reads, key).len() <= reads.len() + 1,
        noted(reads, key).take(reads.len() as int) == reads,
        reads.contains(key) ==> noted(reads, key) == reads,
        all_noted(reads, collection, rows).len() <= reads.len() + rows.len(),
        all_noted(reads, collection, rows).len() >= reads.len(),
        all_noted(reads, collection, rows).take(reads.len() as int) == reads,
        forall|i: int|
            0 <= i < rows.len() ==> all_noted(reads, collection, rows).contains(
                (collection, (#[trigger] rows[i]).0),
            ),
        forall|k: Key| #[trigger]
            all_noted(reads, collection, rows).contains(k) ==> reads.contains(k) || (k.0
                == collection && exists|i: int| 0 <= i < rows.len() && (#[trigger] rows[i]).0 == k.1),
        reads.no_duplicates() ==> all_noted(reads, collection, rows).no_duplicates(),
    decreases rows.len(),
{
    let one = noted(reads, key);
    if !reads.contains(key) {
        assert(one[reads.len() as int] == key);
    }
    assert(one.take(reads.len() as int) =~= reads);
    let all = all_noted(reads, collection, rows);
    if rows.len() == 0 {
        assert(all.take(reads.len() as int) =~= reads);
    } else {
        let less = rows.drop_last();
        let before = all_noted(reads, collection, less);
        let k = (collection, rows.last().0);
        what_was_read_is_remembered(reads, key, collection, less);
        assert(all == noted(before, k));
        assert(all.take(reads.len() as int) =~= before.take(reads.len() as int));
        if !before.contains(k) {
            assert(all[before.len() as int] == k);
        }
        assert forall|i: int| 0 <= i < rows.len() implies all.contains(
            (collection, (#[trigger] rows[i]).0),
        ) by {
            if i < less.len() {
                assert(less[i] == rows[i]);
                let j = choose|j: int|
                    0 <= j < before.len() && before[j] == (collection, rows[i].0);
                assert(all[j] == before[j]);
            }
        }
        assert forall|x: Key| #[trigger] all.contains(x) implies reads.contains(x) || (x.0
            == collection && exists|i: int| 0 <= i < rows.len() && (#[trigger] rows[i]).0 == x.1) by {
            let j = choose|j: int| 0 <= j < all.len() && all[j] == x;
            if j < before.len() {
                assert(before[j] == x);
                assert(before.contains(x));
                if !reads.contains(x) {
                    let i = choose|i: int| 0 <= i < less.len() && (#[trigger] less[i]).0 == x.1;
                    assert(rows[i].0 == x.1);
                }
            } else {
                assert(rows[rows.len() - 1].0 == x.1);
            }
        }
    }
}

/// A transaction reads as of its snapshot: what it did not write it sees as the snapshot
/// holds it.
pub proof fn what_was_not_written_is_seen_as_of_the_snapshot(
    writes: Writes,
    key: Key,
    in_snapshot: Left,
)
    requires
        forall|i: int| 0 <= i < writes.len() ==> (#[trigger] writes[i]).0 != key,
    ensures
        seen(writes, key, in_snapshot) == in_snapshot,
{
    crate::assoc::lemma_find_absent(writes, key);
}

/// A transaction that only read is applied whatever has happened since.
pub proof fn a_reader_always_commits(
    o: Seq<Key>,
    c: Seq<Seq<char>>,
    at: u64,
    s: Seq<StandingModel>,
    rows: Seq<Option<u64>>,
    scans: Seq<Option<LastWrite>>,
    strict: bool,
)
    ensures
        judged(Writes::empty(), o, c, at, s, rows, scans, strict) is None,
{
}

/// The rows read, with those of a scan.
pub open spec fn all_noted(reads: Seq<Key>, collection: Seq<char>, rows: RowsModel) -> Seq<Key>
    decreases rows.len(),
{
    if rows.len() == 0 {
        reads
    } else {
        noted(all_noted(reads, collection, rows.drop_last()), (collection, rows.last().0))
    }
}

/// The rows read, with one more.
pub open spec fn noted(reads: Seq<Key>, key: Key) -> Seq<Key> {
    if reads.contains(key) {
        reads
    } else {
        reads.push(key)
    }
}

/// Whether `after` is `before` with one write put in.
pub open spec fn written(before: Writes, key: Key, left: Left, after: Writes) -> bool {
    &&& find(after, key) == Some(left)
    &&& forall|k: Key| k != key ==> #[trigger] find(after, k) == find(before, k)
}

proof fn lemma_find_key(p: Writes, key: Key, at: int)
    requires
        keys_ordered(p),
        0 <= at <= p.len(),
        forall|k: int| 0 <= k < at ==> key_before((#[trigger] p[k]).0, key),
        forall|k: int| at <= k < p.len() ==> !key_before((#[trigger] p[k]).0, key),
    ensures
        match find(p, key) {
            Some(left) => at < p.len() && p[at] == (key, left),
            None => at == p.len() || p[at].0 != key,
        },
{
    lemma_key_before(key, key, key);
    if at < p.len() && p[at].0 == key {
        assert forall|j: int| 0 <= j < at implies (#[trigger] p[j]).0 != key by {
            assert(key_before(p[j].0, key));
        }
        crate::assoc::lemma_find_at(p, key, at);
    } else {
        assert forall|j: int| 0 <= j < p.len() implies (#[trigger] p[j]).0 != key by {
            if j < at {
                assert(key_before(p[j].0, key));
            } else if j > at && p[j].0 == key {
                assert(key_before(p[at].0, p[j].0));
            }
        }
        crate::assoc::lemma_find_absent(p, key);
    }
}

/// A transaction reads its own writes, whatever the snapshot holds: a record it
/// put reads back, and one it deleted is gone.
pub proof fn own_writes_are_read_back(
    before: Writes,
    after: Writes,
    key: Key,
    left: Left,
    in_snapshot: Left,
)
    requires
        written(before, key, left, after),
    ensures
        seen(after, key, in_snapshot) == left,
{
}

/// A write under one key changes what is seen under no other.
pub proof fn other_keys_are_seen_as_before(
    before: Writes,
    after: Writes,
    key: Key,
    left: Left,
    other: Key,
    in_snapshot: Left,
)
    requires
        written(before, key, left, after),
        other != key,
    ensures
        seen(after, other, in_snapshot) == seen(before, other, in_snapshot),
{
    assert(find(after, other) == find(before, other));
}

} // verus!
