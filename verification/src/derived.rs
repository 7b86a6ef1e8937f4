//! Everything that is derived from the records: indexes, directly addressed
//! arrays, columnar copies and materialized views.
//!
//! Each can be dropped and built again. While one exists it says exactly what
//! the records say: a divergence is a fault, never something to reconcile.

use vstd::prelude::*;
use vstd::string::*;
use crate::column::{appended, buried, cell, coherent, column_of, kept, ColumnStore, StoreModel};
use crate::direct::{placed, reachable, ArrayModel, DirectArray};
use crate::expr::Expr;
use crate::index::{
    askable, evaluates, faithful, let_go, letting_go_keeps_an_index_faithful,
    taking_in_keeps_an_index_faithful, took_in, Index, IndexModel, Keeps, Records,
};
use crate::layout::record_bytes;
use crate::matview::{after_arrival, after_departure, MaterializedView, MaterializedViews};
use crate::record::{field_of, Record, RecordModel};
use crate::schema::accepts;
use crate::strmap::{lemma_value_changed, StrMap};
use crate::value::ValueModel;

verus! {

/// The derived representations of every collection.
pub struct Derived {
    pub indexes: StrMap<Vec<Index>>,
    pub direct: StrMap<DirectArray>,
    pub columns: StrMap<ColumnStore>,
    pub views: MaterializedViews,
}

pub open spec fn index_models(s: Seq<Index>) -> Seq<IndexModel> {
    s.map_values(|i: Index| i@)
}

pub open spec fn all_ordered(s: Seq<Index>) -> bool {
    forall|i: int| 0 <= i < s.len() ==> (#[trigger] s[i]).wf()
}

impl Derived {
    pub open spec fn wf(&self) -> bool {
        &&& self.indexes.wf()
        &&& self.direct.wf()
        &&& self.columns.wf()
        &&& self.views.wf()
        &&& forall|c: Seq<char>|
            (#[trigger] self.indexes.of(c)) matches Some(list) ==> all_ordered(list@)
        &&& forall|c: Seq<char>| (#[trigger] self.direct.of(c)) matches Some(a) ==> a.wf()
        &&& forall|c: Seq<char>| (#[trigger] self.columns.of(c)) matches Some(s) ==> s.wf()
    }

    /// The indexes of a collection, oldest first.
    pub open spec fn indexes_of(&self, c: Seq<char>) -> Seq<IndexModel> {
        match self.indexes.of(c) {
            Some(list) => index_models(list@),
            None => Seq::empty(),
        }
    }

    pub open spec fn array_of(&self, c: Seq<char>) -> Option<ArrayModel> {
        match self.direct.of(c) {
            Some(a) => Some(a@),
            None => None,
        }
    }

    pub open spec fn columns_of(&self, c: Seq<char>) -> Option<StoreModel> {
        match self.columns.of(c) {
            Some(s) => Some(s@),
            None => None,
        }
    }

    /// Nothing derived yet.
    pub fn new() -> (d: Derived)
        ensures
            d.wf(),
            forall|c: Seq<char>| #[trigger] d.indexes_of(c) == Seq::<IndexModel>::empty(),
            forall|c: Seq<char>| #[trigger] d.array_of(c) is None,
            forall|c: Seq<char>| #[trigger] d.columns_of(c) is None,
            d.views.views() == Seq::<MaterializedView>::empty(),
            !d.views.enabled(),
    {
        Derived {
            indexes: StrMap::new(),
            direct: StrMap::new(),
            columns: StrMap::new(),
            views: MaterializedViews::new(),
        }
    }
}

// -- keeping up with writes ---------------------------------------------------

fn take_in_all<E: Fn(&Expr, &Record) -> bool>(
    list: &mut Vec<Index>,
    id: u64,
    rec: &Record,
    eval: &E,
)
    requires
        all_ordered(old(list)@),
        askable(*eval),
    ensures
        all_ordered(final(list)@),
        final(list)@.len() == old(list)@.len(),
        forall|keeps: Keeps| #[trigger]
            evaluates(*eval, keeps) ==> all_took_in(
                index_models(old(list)@),
                keeps,
                id,
                rec.model(),
                index_models(final(list)@),
            ),
{
    let ghost was = list@;
    let mut i: usize = 0;
    while i < list.len()
        invariant
            i <= list@.len(),
            list@.len() == was.len(),
            all_ordered(list@),
            askable(*eval),
            forall|k: int| i <= k < was.len() ==> #[trigger] list@[k] == was[k],
            forall|k: int, keeps: Keeps|
                #![trigger list@[k], evaluates(*eval, keeps)]
                0 <= k < i && evaluates(*eval, keeps) ==> took_in(
                    was[k]@,
                    keeps,
                    id,
                    rec.model(),
                    list@[k]@,
                ),
        decreases list.len() - i,
    {
        list[i].index_record(id, rec, eval);
        i += 1;
    }
}

fn let_go_all<E: Fn(&Expr, &Record) -> bool>(
    list: &mut Vec<Index>,
    id: u64,
    rec: &Record,
    eval: &E,
)
    requires
        all_ordered(old(list)@),
        askable(*eval),
    ensures
        all_ordered(final(list)@),
        final(list)@.len() == old(list)@.len(),
        forall|keeps: Keeps| #[trigger]
            evaluates(*eval, keeps) ==> all_let_go(
                index_models(old(list)@),
                keeps,
                id,
                rec.model(),
                index_models(final(list)@),
            ),
{
    let ghost was = list@;
    let mut i: usize = 0;
    while i < list.len()
        invariant
            i <= list@.len(),
            list@.len() == was.len(),
            all_ordered(list@),
            askable(*eval),
            forall|k: int| i <= k < was.len() ==> #[trigger] list@[k] == was[k],
            forall|k: int, keeps: Keeps|
                #![trigger list@[k], evaluates(*eval, keeps)]
                0 <= k < i && evaluates(*eval, keeps) ==> let_go(
                    was[k]@,
                    keeps,
                    id,
                    rec.model(),
                    list@[k]@,
                ),
        decreases list.len() - i,
    {
        list[i].unindex_record(id, rec, eval);
        i += 1;
    }
}

/// Whether every index took a record in.
pub open spec fn all_took_in(
    a: Seq<IndexModel>,
    keeps: Keeps,
    id: u64,
    r: RecordModel,
    b: Seq<IndexModel>,
) -> bool {
    a.len() == b.len() && forall|i: int|
        0 <= i < a.len() ==> took_in(#[trigger] a[i], keeps, id, r, b[i])
}

/// Whether every index let a record go.
pub open spec fn all_let_go(
    a: Seq<IndexModel>,
    keeps: Keeps,
    id: u64,
    r: RecordModel,
    b: Seq<IndexModel>,
) -> bool {
    a.len() == b.len() && forall|i: int|
        0 <= i < a.len() ==> let_go(#[trigger] a[i], keeps, id, r, b[i])
}

/// A directly addressed array with a record put. One that cannot take the record
/// no longer matches the schema, and goes.
pub open spec fn array_after(a: Option<ArrayModel>, id: u64, r: RecordModel) -> Option<ArrayModel> {
    match a {
        None => None,
        Some(a) => if reachable(a.schema, id) && accepts(a.schema, r) {
            Some(placed(a, id, record_bytes(a.schema.fields, r)))
        } else {
            None
        },
    }
}

/// A directly addressed array without a record.
pub open spec fn array_without(a: Option<ArrayModel>, id: u64) -> Option<ArrayModel> {
    match a {
        None => None,
        Some(a) => Some(ArrayModel { slots: a.slots.remove(id), ..a }),
    }
}

/// A columnar copy with a record put: a row is not changed in place, so the one
/// there was is dead and the new one stands at the end.
pub open spec fn columns_after(s: Option<StoreModel>, id: u64, r: RecordModel) -> Option<StoreModel> {
    match s {
        None => None,
        Some(s) => Some(appended(buried(s, id), id, r)),
    }
}

pub open spec fn columns_without(s: Option<StoreModel>, id: u64) -> Option<StoreModel> {
    match s {
        None => None,
        Some(s) => Some(buried(s, id)),
    }
}

pub open spec fn views_after(
    a: Seq<MaterializedView>,
    c: Seq<char>,
    r: RecordModel,
    b: Seq<MaterializedView>,
) -> bool {
    a.len() == b.len() && forall|i: int|
        0 <= i < a.len() ==> after_arrival(#[trigger] a[i], b[i], c, r)
}

pub open spec fn views_without(
    a: Seq<MaterializedView>,
    c: Seq<char>,
    r: RecordModel,
    b: Seq<MaterializedView>,
) -> bool {
    a.len() == b.len() && forall|i: int|
        0 <= i < a.len() ==> after_departure(#[trigger] a[i], b[i], c, r)
}

/// Whether two states have the same derived from every collection but one, views
/// aside.
pub open spec fn same_elsewhere(a: Derived, b: Derived, c: Seq<char>) -> bool {
    forall|other: Seq<char>|
        other != c ==> {
            &&& #[trigger] b.indexes_of(other) == a.indexes_of(other)
            &&& b.array_of(other) == a.array_of(other)
            &&& b.columns_of(other) == a.columns_of(other)
        }
}

impl Derived {
    fn direct_put(&mut self, collection: &str, id: u64, rec: &Record)
        requires
            old(self).wf(),
        ensures
            final(self).wf(),
            final(self).indexes == old(self).indexes,
            final(self).columns == old(self).columns,
            final(self).views == old(self).views,
            forall|c: Seq<char>|
                c != collection@ ==> #[trigger] final(self).direct.of(c) == old(self).direct.of(c),
            final(self).array_of(collection@) == array_after(
                old(self).array_of(collection@),
                id,
                rec.model(),
            ),
    {
        let ghost before = self.direct;
        match self.direct.position(collection) {
            None => {},
            Some(k) => {
                let ok = if self.direct.pairs[k].1.can_reach(id) {
                    let r = self.direct.pairs[k].1.put(id, rec);
                    r.is_ok()
                } else {
                    false
                };
                proof {
                    lemma_value_changed(before, self.direct, k as int);
                }
                if !ok {
                    self.direct.remove(collection);
                }
            },
        }
    }

    fn direct_forget(&mut self, collection: &str, id: u64)
        requires
            old(self).wf(),
        ensures
            final(self).wf(),
            final(self).indexes == old(self).indexes,
            final(self).columns == old(self).columns,
            final(self).views == old(self).views,
            forall|c: Seq<char>|
                c != collection@ ==> #[trigger] final(self).direct.of(c) == old(self).direct.of(c),
            final(self).array_of(collection@) == array_without(
                old(self).array_of(collection@),
                id,
            ),
    {
        let ghost before = self.direct;
        match self.direct.position(collection) {
            None => {},
            Some(k) => {
                self.direct.pairs[k].1.remove(id);
                proof {
                    lemma_value_changed(before, self.direct, k as int);
                }
            },
        }
    }

    fn columns_bury(&mut self, collection: &str, id: u64)
        requires
            old(self).wf(),
        ensures
            final(self).wf(),
            final(self).indexes == old(self).indexes,
            final(self).direct == old(self).direct,
            final(self).views == old(self).views,
            forall|c: Seq<char>|
                c != collection@ ==> #[trigger] final(self).columns.of(c) == old(self).columns.of(c),
            final(self).columns_of(collection@) == columns_without(
                old(self).columns_of(collection@),
                id,
            ),
    {
        let ghost before = self.columns;
        match self.columns.position(collection) {
            None => {},
            Some(k) => {
                self.columns.pairs[k].1.mark_dead(id);
                proof {
                    lemma_value_changed(before, self.columns, k as int);
                }
            },
        }
    }

    fn columns_put(&mut self, collection: &str, id: u64, rec: &Record)
        requires
            old(self).wf(),
        ensures
            final(self).wf(),
            final(self).indexes == old(self).indexes,
            final(self).direct == old(self).direct,
            final(self).views == old(self).views,
            forall|c: Seq<char>|
                c != collection@ ==> #[trigger] final(self).columns.of(c) == old(self).columns.of(c),
            final(self).columns_of(collection@) == columns_after(
                old(self).columns_of(collection@),
                id,
                rec.model(),
            ),
    {
        let ghost before = self.columns;
        match self.columns.position(collection) {
            None => {},
            Some(k) => {
                self.columns.pairs[k].1.mark_dead(id);
                self.columns.pairs[k].1.append_row(id, rec);
                proof {
                    lemma_value_changed(before, self.columns, k as int);
                }
            },
        }
    }

    /// A record was stored: everything derived from its collection takes it in.
    pub fn reindex_insert<E: Fn(&Expr, &Record) -> bool>(
        &mut self,
        collection: &str,
        id: u64,
        rec: &Record,
        eval: &E,
    )
        requires
            old(self).wf(),
            askable(*eval),
        ensures
            final(self).wf(),
            same_elsewhere(*old(self), *final(self), collection@),
            forall|keeps: Keeps| #[trigger]
                evaluates(*eval, keeps) ==> all_took_in(
                    old(self).indexes_of(collection@),
                    keeps,
                    id,
                    rec.model(),
                    final(self).indexes_of(collection@),
                ),
            final(self).array_of(collection@) == array_after(
                old(self).array_of(collection@),
                id,
                rec.model(),
            ),
            final(self).columns_of(collection@) == columns_after(
                old(self).columns_of(collection@),
                id,
                rec.model(),
            ),
            final(self).views.enabled() == old(self).views.enabled(),
            views_after(
                old(self).views.views(),
                collection@,
                rec.model(),
                final(self).views.views(),
            ),
    {
        let ghost start = *self;
        let ghost before = self.indexes;
        match self.indexes.position(collection) {
            None => {},
            Some(k) => {
                take_in_all(&mut self.indexes.pairs[k].1, id, rec, eval);
                proof {
                    lemma_value_changed(before, self.indexes, k as int);
                }
            },
        }
        self.direct_put(collection, id, rec);
        self.columns_put(collection, id, rec);
        self.views.on_insert(collection, rec);
        proof {
            assert forall|other: Seq<char>| other != collection@ implies {
                &&& #[trigger] self.indexes_of(other) == start.indexes_of(other)
                &&& self.array_of(other) == start.array_of(other)
                &&& self.columns_of(other) == start.columns_of(other)
            } by {
                assert(self.indexes.of(other) == start.indexes.of(other));
                assert(self.direct.of(other) == start.direct.of(other));
                assert(self.columns.of(other) == start.columns.of(other));
            }
        }
    }

    /// A stored record went: everything derived from its collection lets it go.
    pub fn reindex_remove<E: Fn(&Expr, &Record) -> bool>(
        &mut self,
        collection: &str,
        id: u64,
        rec: &Record,
        eval: &E,
    )
        requires
            old(self).wf(),
            askable(*eval),
        ensures
            final(self).wf(),
            same_elsewhere(*old(self), *final(self), collection@),
            forall|keeps: Keeps| #[trigger]
                evaluates(*eval, keeps) ==> all_let_go(
                    old(self).indexes_of(collection@),
                    keeps,
                    id,
                    rec.model(),
                    final(self).indexes_of(collection@),
                ),
            final(self).array_of(collection@) == array_without(old(self).array_of(collection@), id),
            final(self).columns_of(collection@) == columns_without(
                old(self).columns_of(collection@),
                id,
            ),
            final(self).views.enabled() == old(self).views.enabled(),
            views_without(
                old(self).views.views(),
                collection@,
                rec.model(),
                final(self).views.views(),
            ),
    {
        let ghost start = *self;
        let ghost before = self.indexes;
        match self.indexes.position(collection) {
            None => {},
            Some(k) => {
                let_go_all(&mut self.indexes.pairs[k].1, id, rec, eval);
                proof {
                    lemma_value_changed(before, self.indexes, k as int);
                }
            },
        }
        self.direct_forget(collection, id);
        self.columns_bury(collection, id);
        self.views.on_remove(collection, rec);
        proof {
            assert forall|other: Seq<char>| other != collection@ implies {
                &&& #[trigger] self.indexes_of(other) == start.indexes_of(other)
                &&& self.array_of(other) == start.array_of(other)
                &&& self.columns_of(other) == start.columns_of(other)
            } by {
                assert(self.indexes.of(other) == start.indexes.of(other));
                assert(self.direct.of(other) == start.direct.of(other));
                assert(self.columns.of(other) == start.columns.of(other));
            }
        }
    }

    /// A record went and nothing needs to know what it held: what is kept by id
    /// alone is told.
    pub fn forget_row(&mut self, collection: &str, id: u64)
        requires
            old(self).wf(),
        ensures
            final(self).wf(),
            same_elsewhere(*old(self), *final(self), collection@),
            final(self).indexes_of(collection@) == old(self).indexes_of(collection@),
            final(self).array_of(collection@) == array_without(old(self).array_of(collection@), id),
            final(self).columns_of(collection@) == columns_without(
                old(self).columns_of(collection@),
                id,
            ),
            final(self).views == old(self).views,
    {
        let ghost start = *self;
        self.direct_forget(collection, id);
        self.columns_bury(collection, id);
        proof {
            assert forall|other: Seq<char>| other != collection@ implies {
                &&& #[trigger] self.indexes_of(other) == start.indexes_of(other)
                &&& self.array_of(other) == start.array_of(other)
                &&& self.columns_of(other) == start.columns_of(other)
            } by {
                assert(self.direct.of(other) == start.direct.of(other));
                assert(self.columns.of(other) == start.columns.of(other));
            }
        }
    }

    /// Whether a write has to read what it is about to overwrite: an index has
    /// to be told which key goes, and a view which group.
    pub fn needs_old_record(&self, collection: &str) -> (r: bool)
        requires
            self.wf(),
        ensures
            r == (self.indexes_of(collection@).len() > 0 || watched(self.views, collection@)),
    {
        let indexed = match self.indexes.get(collection) {
            Some(list) => list.len() > 0,
            None => false,
        };
        indexed || self.views.watches(collection)
    }
}

/// Whether a view is kept of a collection.
pub open spec fn watched(v: MaterializedViews, c: Seq<char>) -> bool {
    v.enabled() && exists|i: int| 0 <= i < v.views().len() && (#[trigger] v.views()[i]).source() == c
}

// -- saying what the records say ----------------------------------------------

/// What a columnar copy keeps of a field: nothing that is not of its column's
/// type.
pub open spec fn kept_cell(m: StoreModel, name: Seq<char>, v: Option<ValueModel>) -> Option<ValueModel> {
    match (column_of(m, name), v) {
        (Some(c), Some(v)) => kept(c.kind, v),
        _ => None,
    }
}

/// Whether a column that does not keep a value says so.
pub open spec fn owned_to(m: StoreModel, name: Seq<char>, v: Option<ValueModel>) -> bool {
    match (column_of(m, name), v) {
        (Some(c), Some(v)) => kept(c.kind, v) is Some || (if v == ValueModel::Null {
            c.blanked
        } else {
            c.lost
        }),
        _ => true,
    }
}

/// Whether a columnar copy has exactly one live row for each record, and no
/// other, holding what its columns keep of the record.
pub open spec fn columns_faithful(m: StoreModel, t: Records) -> bool {
    &&& coherent(m)
    &&& m.ids.len() <= usize::MAX
    &&& forall|id: u64| #[trigger] m.rows.dom().contains(id) <==> t.dom().contains(id)
    &&& forall|row: int|
        0 <= row < m.ids.len() && !m.dead[row] ==> m.rows.dom().contains(#[trigger] m.ids[row])
            && m.rows[m.ids[row]] == row
    &&& forall|id: u64, name: Seq<char>|
        t.dom().contains(id) ==> #[trigger] cell(m, name, m.rows[id] as int) == kept_cell(
            m,
            name,
            field_of(t[id], name),
        )
    &&& forall|id: u64, name: Seq<char>|
        t.dom().contains(id) && (#[trigger] field_of(t[id], name)) is Some ==> m.columns.dom().contains(
            name,
        )
    &&& forall|id: u64, name: Seq<char>|
        t.dom().contains(id) ==> owned_to(m, name, #[trigger] field_of(t[id], name))
}

/// Whether an array holds exactly the records, each as its schema lays it out.
pub open spec fn array_faithful(a: ArrayModel, t: Records) -> bool {
    &&& forall|id: u64| #[trigger] a.slots.dom().contains(id) <==> t.dom().contains(id)
    &&& forall|id: u64|
        t.dom().contains(id) ==> accepts(a.schema, #[trigger] t[id]) && a.slots[id] == record_bytes(
            a.schema.fields,
            t[id],
        )
}

/// Whether ids are all those of some records, none twice.
pub open spec fn enumerates(ids: Seq<u64>, t: Records) -> bool {
    &&& ids.no_duplicates()
    &&& forall|id: u64| #[trigger] ids.contains(id) <==> t.dom().contains(id)
}

pub open spec fn listed(ids: Seq<u64>, t: Records) -> Seq<RecordModel> {
    ids.map_values(|id: u64| t[id])
}

/// Whether a view holds what a scan of the records computes.
pub open spec fn view_faithful(v: MaterializedView, t: Records) -> bool {
    exists|ids: Seq<u64>| #[trigger] enumerates(ids, t) && v.follows(listed(ids, t))
}

pub open spec fn views_faithful(s: Seq<MaterializedView>, c: Seq<char>, t: Records) -> bool {
    forall|i: int|
        0 <= i < s.len() && (#[trigger] s[i]).source() == c ==> view_faithful(s[i], t)
}

/// Whether everything derived from a collection says exactly what its records
/// say.
pub open spec fn agrees_with(d: Derived, keeps: Keeps, c: Seq<char>, t: Records) -> bool {
    &&& forall|i: int|
        0 <= i < d.indexes_of(c).len() ==> faithful(#[trigger] d.indexes_of(c)[i], keeps, t)
    &&& d.array_of(c) matches Some(a) ==> array_faithful(a, t)
    &&& d.columns_of(c) matches Some(m) ==> columns_faithful(m, t)
    &&& views_faithful(d.views.views(), c, t)
}

/// Whether a state is another after a record was stored.
pub open spec fn stored_into(
    a: Derived,
    b: Derived,
    keeps: Keeps,
    c: Seq<char>,
    id: u64,
    r: RecordModel,
) -> bool {
    &&& all_took_in(a.indexes_of(c), keeps, id, r, b.indexes_of(c))
    &&& b.array_of(c) == array_after(a.array_of(c), id, r)
    &&& b.columns_of(c) == columns_after(a.columns_of(c), id, r)
    &&& views_after(a.views.views(), c, r, b.views.views())
}

/// Whether a state is another after a record went.
pub open spec fn removed_from(
    a: Derived,
    b: Derived,
    keeps: Keeps,
    c: Seq<char>,
    id: u64,
    r: RecordModel,
) -> bool {
    &&& all_let_go(a.indexes_of(c), keeps, id, r, b.indexes_of(c))
    &&& b.array_of(c) == array_without(a.array_of(c), id)
    &&& b.columns_of(c) == columns_without(a.columns_of(c), id)
    &&& views_without(a.views.views(), c, r, b.views.views())
}

proof fn lemma_columns_buried(m: StoreModel, t: Records, id: u64)
    requires
        columns_faithful(m, t),
    ensures
        columns_faithful(buried(m, id), t.remove(id)),
        !buried(m, id).rows.dom().contains(id),
{
    let b = buried(m, id);
    let u = t.remove(id);
    if m.rows.dom().contains(id) {
        let at = m.rows[id] as int;
        assert forall|other: u64| #[trigger] b.rows.dom().contains(other) implies b.rows[other]
            < b.ids.len() && b.ids[b.rows[other] as int] == other && !b.dead[b.rows[other] as int] by {
            assert(m.rows.dom().contains(other));
            assert(m.ids[m.rows[other] as int] == other);
        }
        assert forall|row: int| 0 <= row < b.ids.len() && !b.dead[row] implies b.rows.dom().contains(
            #[trigger] b.ids[row],
        ) && b.rows[b.ids[row]] == row by {
            assert(!m.dead[row]);
            assert(m.rows[m.ids[row]] == row);
            if m.ids[row] == id {
                assert(row == at);
            }
        }
        assert forall|x: u64, name: Seq<char>| u.dom().contains(x) implies #[trigger] cell(
            b,
            name,
            b.rows[x] as int,
        ) == kept_cell(b, name, field_of(u[x], name)) by {
            assert(t.dom().contains(x));
            assert(cell(m, name, m.rows[x] as int) == kept_cell(m, name, field_of(t[x], name)));
        }
        assert forall|x: u64, name: Seq<char>|
            u.dom().contains(x) && (#[trigger] field_of(u[x], name)) is Some implies b.columns.dom().contains(
            name,
        ) by {
            assert(field_of(t[x], name) is Some);
        }
        assert forall|x: u64| #[trigger] b.rows.dom().contains(x) <==> u.dom().contains(x) by {
            assert(m.rows.dom().contains(x) <==> t.dom().contains(x));
        }
    } else {
        assert(!t.dom().contains(id));
        assert(u =~= t);
    }
}

pub proof fn lemma_columns_appended(m: StoreModel, t: Records, id: u64, r: RecordModel)
    requires
        columns_faithful(m, t),
        !t.dom().contains(id),
        m.ids.len() < usize::MAX,
    ensures
        columns_faithful(appended(m, id, r), t.insert(id, r)),
{
    let b = appended(m, id, r);
    let u = t.insert(id, r);
    let n = m.ids.len() as int;
    assert forall|x: u64| #[trigger] b.rows.dom().contains(x) <==> u.dom().contains(x) by {
        assert(m.rows.dom().contains(x) <==> t.dom().contains(x));
    }
    assert forall|row: int| 0 <= row < b.ids.len() && !b.dead[row] implies b.rows.dom().contains(
        #[trigger] b.ids[row],
    ) && b.rows[b.ids[row]] == row by {
        if row < n {
            assert(m.rows.dom().contains(m.ids[row]));
            assert(t.dom().contains(m.ids[row]));
        }
    }
    assert forall|x: u64, name: Seq<char>| u.dom().contains(x) implies #[trigger] cell(
        b,
        name,
        b.rows[x] as int,
    ) == kept_cell(b, name, field_of(u[x], name)) by {
        if x != id {
            assert(t.dom().contains(x));
            assert(m.rows.dom().contains(x));
            assert(cell(m, name, m.rows[x] as int) == kept_cell(m, name, field_of(t[x], name)));
            if field_of(t[x], name) is Some {
                assert(m.columns.dom().contains(name));
            }
        }
    }
    assert forall|x: u64, name: Seq<char>|
        u.dom().contains(x) && (#[trigger] field_of(u[x], name)) is Some implies b.columns.dom().contains(
        name,
    ) by {
        if x != id {
            assert(field_of(t[x], name) is Some);
        }
    }
}

proof fn lemma_view_arrival(
    was: MaterializedView,
    is: MaterializedView,
    c: Seq<char>,
    t: Records,
    id: u64,
    r: RecordModel,
)
    requires
        was.source() == c,
        after_arrival(was, is, c, r),
        view_faithful(was, t),
        !t.dom().contains(id),
    ensures
        view_faithful(is, t.insert(id, r)),
{
    let u = t.insert(id, r);
    let ids = choose|ids: Seq<u64>| #[trigger] enumerates(ids, t) && was.follows(listed(ids, t));
    let more = ids.push(id);
    assert(!ids.contains(id));
    assert(enumerates(more, u)) by {
        assert forall|x: u64| #[trigger] more.contains(x) <==> u.dom().contains(x) by {
            if more.contains(x) {
                let k = choose|k: int| 0 <= k < more.len() && more[k] == x;
                if k < ids.len() {
                    assert(ids[k] == x);
                    assert(ids.contains(x));
                }
            }
            if t.dom().contains(x) {
                assert(ids.contains(x));
                let k = choose|k: int| 0 <= k < ids.len() && ids[k] == x;
                assert(more[k] == x);
            }
            assert(more[ids.len() as int] == id);
        }
        assert forall|i: int, j: int| 0 <= i < more.len() && 0 <= j < more.len() && i != j implies more[i]
            != more[j] by {
            if i < ids.len() {
                assert(ids.contains(ids[i]));
            }
            if j < ids.len() {
                assert(ids.contains(ids[j]));
            }
        }
    }
    assert(listed(more, u) =~= listed(ids, t).push(r)) by {
        assert forall|k: int| 0 <= k < ids.len() implies #[trigger] listed(more, u)[k] == listed(
            ids,
            t,
        )[k] by {
            assert(ids.contains(ids[k]));
        }
    }
    assert(is.follows(listed(ids, t).push(r)));
}

proof fn lemma_view_departure(
    was: MaterializedView,
    is: MaterializedView,
    c: Seq<char>,
    t: Records,
    id: u64,
)
    requires
        was.source() == c,
        t.dom().contains(id),
        after_departure(was, is, c, t[id]),
        view_faithful(was, t),
    ensures
        view_faithful(is, t.remove(id)),
{
    let u = t.remove(id);
    let ids = choose|ids: Seq<u64>| #[trigger] enumerates(ids, t) && was.follows(listed(ids, t));
    assert(ids.contains(id));
    let j = choose|j: int| 0 <= j < ids.len() && ids[j] == id;
    let fewer = ids.remove(j);
    let rows = listed(ids, t);
    assert(rows[j] == t[id]);
    assert(is.follows(rows.remove(j)));
    assert(enumerates(fewer, u)) by {
        assert forall|x: u64| #[trigger] fewer.contains(x) <==> u.dom().contains(x) by {
            if fewer.contains(x) {
                let k = choose|k: int| 0 <= k < fewer.len() && fewer[k] == x;
                let k2 = if k < j { k } else { k + 1 };
                assert(ids[k2] == x);
                assert(ids.contains(x));
            }
            if t.dom().contains(x) && x != id {
                assert(ids.contains(x));
                let k = choose|k: int| 0 <= k < ids.len() && ids[k] == x;
                assert(fewer[if k < j { k } else { k - 1 }] == x);
            }
        }
        assert forall|a: int, b: int| 0 <= a < fewer.len() && 0 <= b < fewer.len() && a != b implies fewer[a]
            != fewer[b] by {
            let x = if a < j { a } else { a + 1 };
            let y = if b < j { b } else { b + 1 };
            assert(fewer[a] == ids[x] && fewer[b] == ids[y]);
        }
    }
    assert(listed(fewer, u) =~= rows.remove(j)) by {
        assert forall|k: int| 0 <= k < fewer.len() implies #[trigger] listed(fewer, u)[k]
            == rows.remove(j)[k] by {
            let x = if k < j { k } else { k + 1 };
            assert(fewer[k] == ids[x]);
            assert(ids[x] != id);
        }
    }
}

/// Storing a new record keeps everything derived in agreement with the records.
pub proof fn storing_keeps_agreement(
    a: Derived,
    b: Derived,
    keeps: Keeps,
    c: Seq<char>,
    t: Records,
    id: u64,
    r: RecordModel,
)
    requires
        agrees_with(a, keeps, c, t),
        !t.dom().contains(id),
        a.columns_of(c) matches Some(m) ==> m.ids.len() < usize::MAX,
        stored_into(a, b, keeps, c, id, r),
    ensures
        agrees_with(b, keeps, c, t.insert(id, r)),
{
    let u = t.insert(id, r);
    assert forall|i: int| 0 <= i < b.indexes_of(c).len() implies faithful(
        #[trigger] b.indexes_of(c)[i],
        keeps,
        u,
    ) by {
        taking_in_keeps_an_index_faithful(
            a.indexes_of(c)[i],
            keeps,
            t,
            id,
            r,
            b.indexes_of(c)[i],
        );
    }
    if let Some(x) = b.array_of(c) {
        let y = a.array_of(c)->Some_0;
        assert forall|k: u64| #[trigger] x.slots.dom().contains(k) <==> u.dom().contains(k) by {
            assert(y.slots.dom().contains(k) <==> t.dom().contains(k));
        }
        assert forall|k: u64| u.dom().contains(k) implies accepts(x.schema, #[trigger] u[k])
            && x.slots[k] == record_bytes(x.schema.fields, u[k]) by {
            if k != id {
                assert(t.dom().contains(k));
                assert(u[k] == t[k]);
                assert(y.slots.dom().contains(k) <==> t.dom().contains(k));
            }
        }
    }
    if let Some(m) = a.columns_of(c) {
        assert(!m.rows.dom().contains(id));
        lemma_columns_appended(m, t, id, r);
    }
    let (old_views, new_views) = (a.views.views(), b.views.views());
    assert forall|i: int|
        0 <= i < new_views.len() && (#[trigger] new_views[i]).source() == c implies view_faithful(
        new_views[i],
        u,
    ) by {
        assert(after_arrival(old_views[i], new_views[i], c, r));
        lemma_view_arrival(old_views[i], new_views[i], c, t, id, r);
    }
}

/// A record's going keeps everything derived in agreement with the records.
pub proof fn removing_keeps_agreement(
    a: Derived,
    b: Derived,
    keeps: Keeps,
    c: Seq<char>,
    t: Records,
    id: u64,
)
    requires
        agrees_with(a, keeps, c, t),
        t.dom().contains(id),
        removed_from(a, b, keeps, c, id, t[id]),
    ensures
        agrees_with(b, keeps, c, t.remove(id)),
{
    let u = t.remove(id);
    assert forall|i: int| 0 <= i < b.indexes_of(c).len() implies faithful(
        #[trigger] b.indexes_of(c)[i],
        keeps,
        u,
    ) by {
        letting_go_keeps_an_index_faithful(
            a.indexes_of(c)[i],
            keeps,
            t,
            id,
            b.indexes_of(c)[i],
        );
    }
    if let Some(x) = b.array_of(c) {
        let y = a.array_of(c)->Some_0;
        assert forall|k: u64| #[trigger] x.slots.dom().contains(k) <==> u.dom().contains(k) by {
            assert(y.slots.dom().contains(k) <==> t.dom().contains(k));
        }
        assert forall|k: u64| u.dom().contains(k) implies accepts(x.schema, #[trigger] u[k])
            && x.slots[k] == record_bytes(x.schema.fields, u[k]) by {
            assert(t.dom().contains(k));
            assert(u[k] == t[k]);
        }
    }
    if let Some(m) = a.columns_of(c) {
        lemma_columns_buried(m, t, id);
    }
    let (old_views, new_views) = (a.views.views(), b.views.views());
    assert forall|i: int|
        0 <= i < new_views.len() && (#[trigger] new_views[i]).source() == c implies view_faithful(
        new_views[i],
        u,
    ) by {
        assert(after_departure(old_views[i], new_views[i], c, t[id]));
        lemma_view_departure(old_views[i], new_views[i], c, t, id);
    }
}

/// Where nothing derived from a collection has to know what a record held, a
/// record can be overwritten without reading it, and everything derived still
/// agrees.
pub proof fn overwriting_keeps_agreement(
    a: Derived,
    b: Derived,
    keeps: Keeps,
    c: Seq<char>,
    t: Records,
    id: u64,
    r: RecordModel,
)
    requires
        a.wf(),
        agrees_with(a, keeps, c, t),
        a.indexes_of(c).len() == 0,
        !watched(a.views, c),
        a.columns_of(c) matches Some(m) ==> m.ids.len() < usize::MAX,
        stored_into(a, b, keeps, c, id, r),
    ensures
        agrees_with(b, keeps, c, t.insert(id, r)),
{
    let u = t.insert(id, r);
    if let Some(x) = b.array_of(c) {
        let y = a.array_of(c)->Some_0;
        assert forall|k: u64| #[trigger] x.slots.dom().contains(k) <==> u.dom().contains(k) by {
            assert(y.slots.dom().contains(k) <==> t.dom().contains(k));
        }
        assert forall|k: u64| u.dom().contains(k) implies accepts(x.schema, #[trigger] u[k])
            && x.slots[k] == record_bytes(x.schema.fields, u[k]) by {
            if k != id {
                assert(t.dom().contains(k));
                assert(u[k] == t[k]);
            }
        }
    }
    if let Some(m) = a.columns_of(c) {
        lemma_columns_buried(m, t, id);
        lemma_columns_appended(buried(m, id), t.remove(id), id, r);
        assert(t.remove(id).insert(id, r) =~= u);
    }
    let (old_views, new_views) = (a.views.views(), b.views.views());
    assert forall|i: int|
        0 <= i < new_views.len() && (#[trigger] new_views[i]).source() == c implies view_faithful(
        new_views[i],
        u,
    ) by {
        assert(after_arrival(old_views[i], new_views[i], c, r));
        assert(old_views[i].source() == c);
    }
}

/// Where nothing derived from a collection has to know what a record held, a
/// record can go by its id alone, and everything derived still agrees.
pub proof fn forgetting_keeps_agreement(
    a: Derived,
    b: Derived,
    keeps: Keeps,
    c: Seq<char>,
    t: Records,
    id: u64,
)
    requires
        a.wf(),
        agrees_with(a, keeps, c, t),
        a.indexes_of(c).len() == 0,
        !watched(a.views, c),
        b.indexes_of(c) == a.indexes_of(c),
        b.array_of(c) == array_without(a.array_of(c), id),
        b.columns_of(c) == columns_without(a.columns_of(c), id),
        b.views == a.views,
    ensures
        agrees_with(b, keeps, c, t.remove(id)),
{
    let u = t.remove(id);
    if let Some(x) = b.array_of(c) {
        let y = a.array_of(c)->Some_0;
        assert forall|k: u64| #[trigger] x.slots.dom().contains(k) <==> u.dom().contains(k) by {
            assert(y.slots.dom().contains(k) <==> t.dom().contains(k));
        }
        assert forall|k: u64| u.dom().contains(k) implies accepts(x.schema, #[trigger] u[k])
            && x.slots[k] == record_bytes(x.schema.fields, u[k]) by {
            assert(t.dom().contains(k));
            assert(u[k] == t[k]);
        }
    }
    if let Some(m) = a.columns_of(c) {
        lemma_columns_buried(m, t, id);
    }
    let views = a.views.views();
    assert forall|i: int| 0 <= i < views.len() && (#[trigger] views[i]).source() == c implies view_faithful(
        views[i],
        u,
    ) by {
        assert(a.views.views()[i].source() == c);
    }
}

} // verus!
