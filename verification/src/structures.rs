//! Switching derived representations on and off, and asking the columnar ones.

use vstd::prelude::*;
use crate::assoc::{find, lemma_find_at, lemma_find_some};
use crate::caches::{rows_model, Rows};
use crate::column::{
    a_copy_keeps_what_is_of_one_sort, are_best, are_totals, cell, columns_of, copy_cost, has_null,
    in_id_order, inexact, lemma_live_distinct, lemma_live_spots, live_spots, lossy, names_in,
    of_one_sort, row_kept, shows, tally, AccumModel, ColumnAccum, ColumnAgg, ColumnAggModel,
    ColumnStore, StoreModel, Totals,
};
use crate::derived::{
    array_faithful, columns_faithful, enumerates, index_models, kept_cell, lemma_columns_appended,
    listed, owned_to, same_elsewhere, view_faithful, Derived,
};
use crate::direct::{addressable, array_of, misfit, reachable, ArrayModel, DirectArray};
use crate::error::{Error, ErrorModel};
use crate::expr::{
    mentioned, occurs_in, what_is_mentioned_stands_in_the_expression, Expr, ExprModel,
};
use crate::index::{askable, evaluates, Index, IndexModel, Keeps, Records};
use crate::indexing::lemma_records_pushed;
use crate::layout::record_bytes;
use crate::matview::{views_elsewhere, MaterializedView};
use crate::number::{add_capped, capped};
use crate::plan::{agg_models, Agg, AggKind, AggModel};
use crate::record::{field_of, Record, RecordModel};
use crate::rows::{ascending, lemma_ascending_distinct, RowsModel};
use crate::schema::{accepts, all_declarable, layout_bytes, Schema, SchemaMode, SchemaModel};
use crate::sorting::Spot;
use crate::strmap::StrMap;
use crate::text::texts;
use crate::value::{models, Value, ValueModel};
use crate::verify::records_of;

verus! {

// -- on and off ---------------------------------------------------------------

/// A collection as storage has it.
pub struct Collection {
    pub name: String,
    pub schema: Schema,
    pub rows: Rows,
}

/// What a [`Collection`] holds.
pub struct CollectionModel {
    pub name: Seq<char>,
    pub schema: SchemaModel,
    pub rows: RowsModel,
}

impl View for Collection {
    type V = CollectionModel;

    open spec fn view(&self) -> CollectionModel {
        CollectionModel {
            name: self.name@,
            schema: self.schema@,
            rows: rows_model(self.rows@),
        }
    }
}

pub open spec fn collections(s: Seq<Collection>) -> Seq<CollectionModel> {
    s.map_values(|c: Collection| c@)
}

/// Arrays by collection.
pub type Arrays = Map<Seq<char>, ArrayModel>;

/// Columnar copies by collection.
pub type Copies = Map<Seq<char>, StoreModel>;

impl Derived {
    pub open spec fn arrays(&self) -> Arrays {
        Map::new(
            |c: Seq<char>| self.array_of(c) is Some,
            |c: Seq<char>| self.array_of(c)->Some_0,
        )
    }

    pub open spec fn copies(&self) -> Copies {
        Map::new(
            |c: Seq<char>| self.columns_of(c) is Some,
            |c: Seq<char>| self.columns_of(c)->Some_0,
        )
    }
}

/// Whether every id of a collection of constant size can be given a place in
/// memory.
pub open spec fn all_reachable(c: CollectionModel) -> bool {
    addressable(c.schema) ==> forall|i: int|
        0 <= i < c.rows.len() ==> reachable(c.schema, (#[trigger] c.rows[i]).0)
}

/// The arrays after one was built for each of the first `n` collections whose
/// schema is fixed, up to the first that is refused; and whether none was.
pub open spec fn arrays_built(a: Arrays, s: Seq<CollectionModel>, n: int) -> (Arrays, bool)
    decreases n,
{
    if n <= 0 {
        (a, true)
    } else {
        let (before, ok) = arrays_built(a, s, n - 1);
        let c = s[n - 1];
        if !ok || c.schema.mode != SchemaMode::Fixed || !addressable(c.schema) {
            (before, ok)
        } else {
            match array_of(c.schema, c.rows) {
                Some(m) => (before.insert(c.name, m), true),
                None => (before, false),
            }
        }
    }
}

/// The copies after one was built for each of the first `n` collections.
pub open spec fn copies_built(m: Copies, s: Seq<CollectionModel>, n: int) -> Copies
    decreases n,
{
    if n <= 0 {
        m
    } else {
        copies_built(m, s, n - 1).insert(s[n - 1].name, columns_of(s[n - 1].rows))
    }
}

/// Two maps by name are the same where they say the same of every name.
proof fn lemma_same_arrays(a: Derived, b: Arrays)
    requires
        forall|c: Seq<char>|
            #![trigger a.array_of(c)]
            match a.array_of(c) {
                Some(m) => b.dom().contains(c) && b[c] == m,
                None => !b.dom().contains(c),
            },
    ensures
        a.arrays() == b,
{
    assert(a.arrays().dom() =~= b.dom()) by {
        assert forall|c: Seq<char>| a.arrays().dom().contains(c) <==> b.dom().contains(c) by {
            assert(a.array_of(c) is Some <==> b.dom().contains(c));
        }
    }
    assert(a.arrays() =~= b);
}

proof fn lemma_same_copies(a: Derived, b: Copies)
    requires
        forall|c: Seq<char>|
            #![trigger a.columns_of(c)]
            match a.columns_of(c) {
                Some(m) => b.dom().contains(c) && b[c] == m,
                None => !b.dom().contains(c),
            },
    ensures
        a.copies() == b,
{
    assert(a.copies().dom() =~= b.dom()) by {
        assert forall|c: Seq<char>| a.copies().dom().contains(c) <==> b.dom().contains(c) by {
            assert(a.columns_of(c) is Some <==> b.dom().contains(c));
        }
    }
    assert(a.copies() =~= b);
}

impl Derived {
    /// Build a directly addressed array for every collection whose schema is
    /// fixed. Refused at the first whose records it does not accept; those before
    /// it are built.
    pub fn enable_direct_lookup(&mut self, all: &Vec<Collection>) -> (r: Result<(), Error>)
        requires
            old(self).wf(),
            forall|i: int|
                0 <= i < all@.len() ==> all_declarable(
                    (#[trigger] all@[i])@.schema.mode,
                    all@[i]@.schema.fields,
                ) && all_reachable(all@[i]@),
        ensures
            final(self).wf(),
            final(self).indexes == old(self).indexes,
            final(self).columns == old(self).columns,
            final(self).views == old(self).views,
            final(self).arrays() == arrays_built(
                old(self).arrays(),
                collections(all@),
                all@.len() as int,
            ).0,
            match r {
                Ok(_) => arrays_built(
                    old(self).arrays(),
                    collections(all@),
                    all@.len() as int,
                ).1,
                Err(e) => !arrays_built(
                    old(self).arrays(),
                    collections(all@),
                    all@.len() as int,
                ).1 && e@ == ErrorModel::InvalidSchema(misfit()),
            },
    {
        let ghost start = self.arrays();
        let ghost s = collections(all@);
        let mut i: usize = 0;
        while i < all.len()
            invariant
                i <= all@.len(),
                self.wf(),
                self.indexes == old(self).indexes,
                self.columns == old(self).columns,
                self.views == old(self).views,
                start == old(self).arrays(),
                s == collections(all@),
                forall|k: int|
                    0 <= k < all@.len() ==> all_declarable(
                        (#[trigger] all@[k])@.schema.mode,
                        all@[k]@.schema.fields,
                    ) && all_reachable(all@[k]@),
                arrays_built(start, s, i as int) == (self.arrays(), true),
            decreases all.len() - i,
        {
            let c = &all[i];
            assert(s[i as int] == c@);
            let fixed = match c.schema.mode() {
                SchemaMode::Fixed => true,
                _ => false,
            };
            if fixed {
                proof {
                    let m = c@;
                    if addressable(m.schema) {
                        assert forall|k: int| 0 <= k < c.rows@.len() implies reachable(
                            m.schema,
                            (#[trigger] c.rows@[k]).0,
                        ) by {
                            assert(m.rows[k].0 == c.rows@[k].0);
                        }
                    }
                }
                match DirectArray::rebuild(c.schema.dup(), &c.rows) {
                    Err(e) => {
                        proof {
                            lemma_build_stops(start, s, i + 1);
                        }
                        return Err(e);
                    },
                    Ok(None) => {},
                    Ok(Some(a)) => {
                        let ghost before = *self;
                        self.direct.put(c.name.as_str(), a);
                        proof {
                            assert forall|x: Seq<char>|
                                #![trigger self.array_of(x)]
                                match self.array_of(x) {
                                    Some(m) => before.arrays().insert(c@.name, a@).dom().contains(x)
                                        && before.arrays().insert(c@.name, a@)[x] == m,
                                    None => !before.arrays().insert(c@.name, a@).dom().contains(x),
                                } by {
                                if x != c@.name {
                                    assert(self.direct.of(x) == before.direct.of(x));
                                    assert(self.array_of(x) == before.array_of(x));
                                }
                            }
                            lemma_same_arrays(*self, before.arrays().insert(c@.name, a@));
                        }
                    },
                }
            }
            i += 1;
        }
        Ok(())
    }

    /// Drop every directly addressed array.
    pub fn disable_direct_lookup(&mut self)
        requires
            old(self).wf(),
        ensures
            final(self).wf(),
            final(self).indexes == old(self).indexes,
            final(self).columns == old(self).columns,
            final(self).views == old(self).views,
            forall|c: Seq<char>| #[trigger] final(self).array_of(c) is None,
    {
        self.direct = StrMap::new();
    }

    /// Build a columnar copy of every collection.
    pub fn enable_column_store(&mut self, all: &Vec<Collection>)
        requires
            old(self).wf(),
        ensures
            final(self).wf(),
            final(self).indexes == old(self).indexes,
            final(self).direct == old(self).direct,
            final(self).views == old(self).views,
            final(self).copies() == copies_built(
                old(self).copies(),
                collections(all@),
                all@.len() as int,
            ),
    {
        let ghost start = self.copies();
        let ghost s = collections(all@);
        let mut i: usize = 0;
        while i < all.len()
            invariant
                i <= all@.len(),
                self.wf(),
                self.indexes == old(self).indexes,
                self.direct == old(self).direct,
                self.views == old(self).views,
                start == old(self).copies(),
                s == collections(all@),
                copies_built(start, s, i as int) == self.copies(),
            decreases all.len() - i,
        {
            let c = &all[i];
            assert(s[i as int] == c@);
            let store = ColumnStore::build(&c.rows);
            let ghost before = *self;
            self.columns.put(c.name.as_str(), store);
            proof {
                let m = before.copies().insert(c@.name, store@);
                assert forall|x: Seq<char>|
                    #![trigger self.columns_of(x)]
                    match self.columns_of(x) {
                        Some(y) => m.dom().contains(x) && m[x] == y,
                        None => !m.dom().contains(x),
                    } by {
                    if x != c@.name {
                        assert(self.columns.of(x) == before.columns.of(x));
                        assert(self.columns_of(x) == before.columns_of(x));
                    }
                }
                lemma_same_copies(*self, m);
            }
            i += 1;
        }
    }

    /// Drop every columnar copy.
    pub fn disable_column_store(&mut self)
        requires
            old(self).wf(),
        ensures
            final(self).wf(),
            final(self).indexes == old(self).indexes,
            final(self).direct == old(self).direct,
            final(self).views == old(self).views,
            forall|c: Seq<char>| #[trigger] final(self).columns_of(c) is None,
    {
        self.columns = StrMap::new();
    }

    /// Drop everything derived from a collection.
    pub fn invalidate(&mut self, collection: &str)
        requires
            old(self).wf(),
        ensures
            final(self).wf(),
            same_elsewhere(*old(self), *final(self), collection@),
            final(self).indexes_of(collection@) == Seq::<IndexModel>::empty(),
            final(self).array_of(collection@) is None,
            final(self).columns_of(collection@) is None,
            final(self).views.enabled() == old(self).views.enabled(),
            final(self).views.views() == views_elsewhere(old(self).views.views(), collection@),
    {
        let ghost start = *self;
        self.indexes.remove(collection);
        self.direct.remove(collection);
        self.columns.remove(collection);
        self.views.clear_collection(collection);
        proof {
            assert forall|other: Seq<char>| other != collection@ implies {
                &&& #[trigger] self.indexes_of(other) == start.indexes_of(other)
                &&& self.array_of(other) == start.array_of(other)
                &&& self.columns_of(other) == start.columns_of(other)
            } by {
                assert(self.indexes.of(other) == start.indexes.of(other));
                assert(self.direct.of(other) == start.direct.of(other));
                assert(self.columns.of(other) == start.columns.of(other));
            }
        }
    }
}

proof fn lemma_build_stops(a: Arrays, s: Seq<CollectionModel>, n: int)
    requires
        0 <= n <= s.len(),
        !arrays_built(a, s, n).1,
    ensures
        arrays_built(a, s, s.len() as int) == arrays_built(a, s, n),
    decreases s.len() - n,
{
    if n < s.len() {
        lemma_build_stops(a, s, n + 1);
    }
}

/// A columnar copy built from the records says what they say.
pub proof fn a_built_copy_agrees(rows: RowsModel)
    requires
        ascending(rows),
        rows.len() <= usize::MAX,
    ensures
        columns_faithful(columns_of(rows), records_of(rows)),
        columns_of(rows).ids.len() == rows.len(),
    decreases rows.len(),
{
    if rows.len() == 0 {
        assert(records_of(rows) =~= Map::empty());
    } else {
        let n = rows.len() - 1;
        let rest = rows.drop_last();
        assert(rest =~= rows.take(n));
        assert(rows =~= rows.take(n + 1));
        assert forall|i: int, j: int|
            #![trigger rest[i], rest[j]]
            0 <= i < j < rest.len() implies rest[i].0 < rest[j].0 by {
            assert(rest[i] == rows[i] && rest[j] == rows[j]);
        }
        a_built_copy_agrees(rest);
        lemma_records_pushed(rows, n);
        lemma_columns_appended(columns_of(rest), records_of(rest), rows.last().0, rows.last().1);
    }
}

/// An array built from the records says what they say.
pub proof fn a_built_array_agrees(s: SchemaModel, rows: RowsModel)
    requires
        ascending(rows),
        array_of(s, rows) is Some,
    ensures
        array_faithful(array_of(s, rows)->Some_0, records_of(rows)),
        array_of(s, rows)->Some_0.schema == s,
    decreases rows.len(),
{
    if rows.len() == 0 {
        assert(records_of(rows) =~= Map::empty());
    } else {
        let n = rows.len() - 1;
        let rest = rows.drop_last();
        assert(rest =~= rows.take(n));
        assert(rows =~= rows.take(n + 1));
        assert forall|i: int, j: int|
            #![trigger rest[i], rest[j]]
            0 <= i < j < rest.len() implies rest[i].0 < rest[j].0 by {
            assert(rest[i] == rows[i] && rest[j] == rows[j]);
        }
        a_built_array_agrees(s, rest);
        lemma_records_pushed(rows, n);
        let before = array_of(s, rest)->Some_0;
        let after = array_of(s, rows)->Some_0;
        let t = records_of(rest);
        let u = records_of(rows);
        let (id, r) = rows.last();
        assert forall|k: u64| #[trigger] after.slots.dom().contains(k) <==> u.dom().contains(k) by {
            assert(before.slots.dom().contains(k) <==> t.dom().contains(k));
        }
        assert forall|k: u64| u.dom().contains(k) implies accepts(after.schema, #[trigger] u[k])
            && after.slots[k] == record_bytes(after.schema.fields, u[k]) by {
            if k != id {
                assert(t.dom().contains(k));
                assert(u[k] == t[k]);
            }
        }
    }
}

/// A view that follows the records of a collection, in the order of their ids, says
/// what they say.
pub proof fn a_built_view_agrees(v: MaterializedView, rows: RowsModel)
    requires
        ascending(rows),
        v.follows(rows.map_values(|p: (u64, RecordModel)| p.1)),
    ensures
        view_faithful(v, records_of(rows)),
{
    let t = records_of(rows);
    let ids = rows.map_values(|p: (u64, RecordModel)| p.0);
    lemma_ascending_distinct(rows);
    assert forall|i: int, j: int| 0 <= i < ids.len() && 0 <= j < ids.len() && i != j implies ids[i]
        != ids[j] by {
        assert(ids[i] == rows[i].0 && ids[j] == rows[j].0);
        if i < j {
            assert(rows[i].0 < rows[j].0);
        } else {
            assert(rows[j].0 < rows[i].0);
        }
    }
    assert forall|i: int| 0 <= i < rows.len() implies find(rows, (#[trigger] rows[i]).0) == Some(
        rows[i].1,
    ) by {
        lemma_find_at(rows, rows[i].0, i);
    }
    assert forall|id: u64| #[trigger] ids.contains(id) <==> t.dom().contains(id) by {
        if ids.contains(id) {
            let i = choose|i: int| 0 <= i < ids.len() && ids[i] == id;
            assert(find(rows, rows[i].0) == Some(rows[i].1));
        }
        if t.dom().contains(id) {
            let i = lemma_find_some(rows, id);
            assert(ids[i] == id);
        }
    }
    assert(listed(ids, t) =~= rows.map_values(|p: (u64, RecordModel)| p.1)) by {
        assert forall|i: int| 0 <= i < ids.len() implies t[#[trigger] ids[i]] == rows[i].1 by {
            assert(find(rows, rows[i].0) == Some(rows[i].1));
        }
    }
    assert(enumerates(ids, t));
}

// -- asking columns -----------------------------------------------------------

/// A cell of an answer from columns. A sum is `whole` and then the numbers of
/// `rest` in turn, which are for floating-point arithmetic; a mean is such a sum
/// over a count.
#[derive(Debug, PartialEq, Eq)]
pub enum ColumnCell {
    Value(Value),
    Sum { whole: i64, rest: Vec<Value> },
    Mean { whole: i64, rest: Vec<Value>, count: u64 },
}

/// What a [`ColumnCell`] holds.
pub enum ColumnCellModel {
    Value(ValueModel),
    Sum { whole: int, rest: Seq<ValueModel> },
    Mean { whole: int, rest: Seq<ValueModel>, count: nat },
}

impl View for ColumnCell {
    type V = ColumnCellModel;

    open spec fn view(&self) -> ColumnCellModel {
        match self {
            ColumnCell::Value(v) => ColumnCellModel::Value(v.model()),
            ColumnCell::Sum { whole, rest } => ColumnCellModel::Sum {
                whole: *whole as int,
                rest: models(rest@),
            },
            ColumnCell::Mean { whole, rest, count } => ColumnCellModel::Mean {
                whole: *whole as int,
                rest: models(rest@),
                count: *count as nat,
            },
        }
    }
}

/// What an aggregate reports. A sum or a mean of nothing numeric is null, and so is an
/// extreme of nothing.
pub open spec fn column_reported(kind: AggKind, a: AccumModel) -> ColumnCellModel {
    match kind {
        AggKind::Count => ColumnCellModel::Value(ValueModel::U64(a.count as u64)),
        AggKind::Sum => if a.saw_value {
            ColumnCellModel::Sum { whole: a.whole, rest: a.rest }
        } else {
            ColumnCellModel::Value(ValueModel::Null)
        },
        AggKind::Avg => if a.numbers > 0 {
            ColumnCellModel::Mean { whole: a.whole, rest: a.rest, count: a.numbers }
        } else {
            ColumnCellModel::Value(ValueModel::Null)
        },
        AggKind::Min => ColumnCellModel::Value(
            match a.min {
                Some(v) => v,
                None => ValueModel::Null,
            },
        ),
        AggKind::Max => ColumnCellModel::Value(
            match a.max {
                Some(v) => v,
                None => ValueModel::Null,
            },
        ),
    }
}

/// Fields by name, in the order they are set.
pub type ColumnCells = Seq<(Seq<char>, ColumnCellModel)>;

pub open spec fn column_cells(s: Seq<(String, ColumnCell)>) -> ColumnCells {
    s.map_values(|c: (String, ColumnCell)| (c.0@, c.1@))
}

/// The fields of one group's row: what it is grouped by, then its aggregates.
pub open spec fn group_cells(
    group_by: Seq<Seq<char>>,
    aggs: Seq<AggModel>,
    key: Seq<ValueModel>,
    accs: Seq<AccumModel>,
) -> ColumnCells {
    Seq::new(
        group_by.len() + aggs.len(),
        |i: int|
            if i < group_by.len() {
                (group_by[i], ColumnCellModel::Value(key[i]))
            } else {
                (
                    aggs[i - group_by.len()].output,
                    column_reported(
                        aggs[i - group_by.len()].kind,
                        accs[i - group_by.len()],
                    ),
                )
            },
    )
}

/// What an aggregate asks of the columns.
pub open spec fn asked_of_columns(a: AggModel) -> ColumnAggModel {
    ColumnAggModel {
        field: a.field,
        counts_rows: a.kind == AggKind::Count && a.field is None,
    }
}

fn report_cell(kind: AggKind, a: ColumnAccum) -> (c: ColumnCell)
    ensures
        c@ == column_reported(kind, a@),
{
    match kind {
        AggKind::Count => ColumnCell::Value(Value::U64(a.count)),
        AggKind::Sum => {
            if a.saw_value {
                ColumnCell::Sum { whole: a.whole, rest: a.rest }
            } else {
                ColumnCell::Value(Value::Null)
            }
        },
        AggKind::Avg => {
            if a.numbers > 0 {
                ColumnCell::Mean { whole: a.whole, rest: a.rest, count: a.numbers }
            } else {
                ColumnCell::Value(Value::Null)
            }
        },
        AggKind::Min => match a.min {
            Some(v) => ColumnCell::Value(v),
            None => ColumnCell::Value(Value::Null),
        },
        AggKind::Max => match a.max {
            Some(v) => ColumnCell::Value(v),
            None => ColumnCell::Value(Value::Null),
        },
    }
}

/// A row of an answer: its position and its fields in order.
pub struct ColumnRow {
    pub id: u64,
    pub cells: Vec<(String, ColumnCell)>,
}


impl View for ColumnRow {
    type V = (u64, ColumnCells);

    open spec fn view(&self) -> (u64, ColumnCells) {
        (self.id, column_cells(self.cells@))
    }
}

pub open spec fn column_rows(s: Seq<ColumnRow>) -> Seq<(u64, ColumnCells)> {
    s.map_values(|r: ColumnRow| r@)
}

/// The rows of an answer: one per group, numbered in order.
pub open spec fn rows_of_totals(
    group_by: Seq<Seq<char>>,
    aggs: Seq<AggModel>,
    t: Totals,
) -> Seq<(u64, ColumnCells)> {
    Seq::new(t.len(), |i: int| (i as u64, group_cells(group_by, aggs, t[i].0, t[i].1)))
}

/// Whether `passed` is what a predicate says of each live row, shown only the
/// fields that the predicate mentions.
pub open spec fn passed_by(
    m: StoreModel,
    predicate: Option<ExprModel>,
    keeps: Keeps,
    passed: Seq<bool>,
) -> bool {
    &&& passed.len() == m.ids.len()
    &&& forall|row: int|
        0 <= row < m.ids.len() && !m.dead[row] ==> row_passed(
            m,
            predicate,
            keeps,
            row,
            #[trigger] passed[row],
        )
}

pub open spec fn row_passed(
    m: StoreModel,
    predicate: Option<ExprModel>,
    keeps: Keeps,
    row: int,
    passes: bool,
) -> bool {
    match predicate {
        None => passes,
        Some(p) => row_kept(m, mentioned(p, Seq::empty()), p, keeps, row, passes),
    }
}

/// Whether rows are the answer of an aggregate over a columnar copy: one for each
/// group of the live rows that the predicate keeps.
pub open spec fn aggregated(
    m: StoreModel,
    group_by: Seq<Seq<char>>,
    aggs: Seq<AggModel>,
    predicate: Option<ExprModel>,
    keeps: Keeps,
    rows: Seq<(u64, ColumnCells)>,
) -> bool {
    exists|passed: Seq<bool>, t: Totals|
        #![trigger passed_by(m, predicate, keeps, passed), rows_of_totals(group_by, aggs, t)]
        passed_by(m, predicate, keeps, passed) && are_totals(
            m,
            group_by,
            aggs.map_values(|a: AggModel| asked_of_columns(a)),
            passed,
            m.ids.len() as int,
            t,
        ) && rows == rows_of_totals(group_by, aggs, t)
}

/// Whether a columnar copy keeps what an aggregate reads: every value of the fields
/// grouped by and aggregated but nulls, which count as absent there; and every value of
/// the fields tested.
pub open spec fn keeps_for(
    m: StoreModel,
    group_by: Seq<Seq<char>>,
    aggs: Seq<AggModel>,
    predicate: Option<ExprModel>,
) -> bool {
    &&& forall|i: int| 0 <= i < group_by.len() ==> !lossy(m, #[trigger] group_by[i])
    &&& forall|j: int|
        0 <= j < aggs.len() ==> ((#[trigger] aggs[j]).field matches Some(f) ==> !lossy(m, f))
    &&& exact_on(m, tested_fields(predicate))
}

/// Whether a columnar copy keeps every value of some fields.
pub open spec fn exact_on(m: StoreModel, fields: Seq<Seq<char>>) -> bool {
    forall|k: int| 0 <= k < fields.len() ==> !inexact(m, #[trigger] fields[k])
}

/// The fields a predicate mentions.
pub open spec fn tested_fields(predicate: Option<ExprModel>) -> Seq<Seq<char>> {
    match predicate {
        None => Seq::empty(),
        Some(p) => mentioned(p, Seq::empty()),
    }
}

fn all_exact(store: &ColumnStore, fields: &Vec<String>) -> (r: bool)
    requires
        store.wf(),
    ensures
        r == exact_on(store@, texts(fields@)),
{
    let mut i: usize = 0;
    while i < fields.len()
        invariant
            i <= fields@.len(),
            store.wf(),
            forall|k: int| 0 <= k < i ==> !inexact(store@, #[trigger] texts(fields@)[k]),
        decreases fields.len() - i,
    {
        assert(texts(fields@)[i as int] == fields@[i as int]@);
        if store.passed_over_values(fields[i].as_str()) {
            return false;
        }
        i += 1;
    }
    true
}

fn none_lost(store: &ColumnStore, group_by: &Vec<String>, aggs: &Vec<Agg>) -> (r: bool)
    requires
        store.wf(),
    ensures
        r == keeps_for(store@, texts(group_by@), agg_models(aggs@), None),
{
    let mut i: usize = 0;
    while i < group_by.len()
        invariant
            i <= group_by@.len(),
            store.wf(),
            forall|k: int| 0 <= k < i ==> !lossy(store@, #[trigger] texts(group_by@)[k]),
        decreases group_by.len() - i,
    {
        assert(texts(group_by@)[i as int] == group_by@[i as int]@);
        if store.lost_values(group_by[i].as_str()) {
            return false;
        }
        i += 1;
    }
    let mut j: usize = 0;
    while j < aggs.len()
        invariant
            j <= aggs@.len(),
            store.wf(),
            forall|k: int|
                0 <= k < j ==> ((#[trigger] agg_models(aggs@)[k]).field matches Some(f) ==> !lossy(
                    store@,
                    f,
                )),
        decreases aggs.len() - j,
    {
        assert(agg_models(aggs@)[j as int] == aggs@[j as int]@);
        if let Some(f) = &aggs[j].field {
            if store.lost_values(f.as_str()) {
                return false;
            }
        }
        j += 1;
    }
    true
}

fn take_group(groups: &mut Vec<(Vec<Value>, Vec<ColumnAccum>)>, i: usize) -> (g: (
    Vec<Value>,
    Vec<ColumnAccum>,
))
    requires
        i < old(groups)@.len(),
    ensures
        g == old(groups)@[i as int],
        final(groups)@.len() == old(groups)@.len(),
        forall|k: int|
            0 <= k < old(groups)@.len() && k != i ==> #[trigger] final(groups)@[k] == old(
                groups,
            )@[k],
{
    let mut g: (Vec<Value>, Vec<ColumnAccum>) = (Vec::new(), Vec::new());
    std::mem::swap(&mut groups[i], &mut g);
    g
}

fn take_accum(accs: &mut Vec<ColumnAccum>, i: usize) -> (a: ColumnAccum)
    requires
        i < old(accs)@.len(),
    ensures
        a == old(accs)@[i as int],
        final(accs)@.len() == old(accs)@.len(),
        forall|k: int|
            0 <= k < old(accs)@.len() && k != i ==> #[trigger] final(accs)@[k] == old(accs)@[k],
{
    let mut a = ColumnAccum::default();
    std::mem::swap(&mut accs[i], &mut a);
    a
}

fn group_row(
    id: u64,
    group_by: &Vec<String>,
    aggs: &Vec<Agg>,
    key: &Vec<Value>,
    accs: Vec<ColumnAccum>,
) -> (r: ColumnRow)
    requires
        key@.len() == group_by@.len(),
        accs@.len() == aggs@.len(),
    ensures
        r@ == (
            id,
            group_cells(
                texts(group_by@),
                agg_models(aggs@),
                models(key@),
                crate::column::accums(accs@),
            ),
        ),
{
    let ghost want = group_cells(
        texts(group_by@),
        agg_models(aggs@),
        models(key@),
        crate::column::accums(accs@),
    );
    let ghost all = accs@;
    let mut accs = accs;
    let mut cells: Vec<(String, ColumnCell)> = Vec::new();
    let mut i: usize = 0;
    while i < group_by.len()
        invariant
            i <= group_by@.len(),
            key@.len() == group_by@.len(),
            want == group_cells(
                texts(group_by@),
                agg_models(aggs@),
                models(key@),
                crate::column::accums(all),
            ),
            cells@.len() == i,
            forall|k: int| 0 <= k < i ==> ((#[trigger] cells@[k]).0@, cells@[k].1@) == want[k],
        decreases group_by.len() - i,
    {
        cells.push((group_by[i].clone(), ColumnCell::Value(key[i].dup())));
        i += 1;
    }
    let mut j: usize = 0;
    while j < aggs.len()
        invariant
            j <= aggs@.len(),
            accs@.len() == aggs@.len(),
            all.len() == aggs@.len(),
            forall|k: int| j <= k < all.len() ==> #[trigger] accs@[k] == all[k],
            want == group_cells(
                texts(group_by@),
                agg_models(aggs@),
                models(key@),
                crate::column::accums(all),
            ),
            cells@.len() == group_by@.len() + j,
            forall|k: int|
                0 <= k < cells@.len() ==> ((#[trigger] cells@[k]).0@, cells@[k].1@) == want[k],
        decreases aggs.len() - j,
    {
        let a = take_accum(&mut accs, j);
        assert(crate::column::accums(all)[j as int] == a@);
        assert(agg_models(aggs@)[j as int] == aggs@[j as int]@);
        cells.push((aggs[j].output.clone(), report_cell(aggs[j].kind, a)));
        j += 1;
    }
    assert(column_cells(cells@) =~= want);
    ColumnRow { id, cells }
}

fn ask_columns(aggs: &Vec<Agg>) -> (out: Vec<ColumnAgg>)
    ensures
        out@.map_values(|a: ColumnAgg| a@) == agg_models(aggs@).map_values(
            |a: AggModel| asked_of_columns(a),
        ),
{
    let ghost want = agg_models(aggs@).map_values(|a: AggModel| asked_of_columns(a));
    let mut out: Vec<ColumnAgg> = Vec::new();
    let mut i: usize = 0;
    while i < aggs.len()
        invariant
            i <= aggs@.len(),
            want == agg_models(aggs@).map_values(|a: AggModel| asked_of_columns(a)),
            out@.len() == i,
            forall|k: int| 0 <= k < i ==> (#[trigger] out@[k])@ == want[k],
        decreases aggs.len() - i,
    {
        let a = &aggs[i];
        let field = match &a.field {
            Some(f) => Some(f.clone()),
            None => None,
        };
        let counts = match a.kind {
            AggKind::Count => true,
            _ => false,
        };
        let counts_rows = counts && a.field.is_none();
        out.push(ColumnAgg { field, counts_rows });
        i += 1;
    }
    assert(out@.map_values(|a: ColumnAgg| a@) =~= want);
    out
}

impl Derived {
    /// Aggregate a collection by its columnar copy, without building a record per
    /// row. Nothing where there is no copy, or where it passed over a value that the
    /// aggregate would read: the records are then to be read instead.
    pub fn column_aggregate<E: Fn(&Expr, &Record) -> bool>(
        &self,
        collection: &str,
        group_by: &Vec<String>,
        aggs: &Vec<Agg>,
        predicate: Option<&Expr>,
        eval: &E,
    ) -> (r: Option<Vec<ColumnRow>>)
        requires
            self.wf(),
            askable(*eval),
        ensures
            match self.columns_of(collection@) {
                None => r is None,
                Some(m) => if keeps_for(
                    m,
                    texts(group_by@),
                    agg_models(aggs@),
                    optional_expr(predicate),
                ) {
                    r matches Some(rows) && forall|keeps: Keeps| #[trigger]
                        evaluates(*eval, keeps) ==> aggregated(
                            m,
                            texts(group_by@),
                            agg_models(aggs@),
                            optional_expr(predicate),
                            keeps,
                            column_rows(rows@),
                        )
                } else {
                    r is None
                },
            },
    {
        let store = match self.columns.get(collection) {
            None => {
                return None;
            },
            Some(s) => s,
        };
        assert(self.columns.of(collection@) == Some(*store));
        let ghost m = store@;
        assert(self.columns_of(collection@) == Some(m));
        if !none_lost(store, group_by, aggs) {
            return None;
        }
        let asked = ask_columns(aggs);
        let passed = match predicate {
            None => store.passing_all(),
            Some(p) => {
                let mut fields: Vec<String> = Vec::new();
                assert(texts(fields@) =~= Seq::empty());
                p.referenced_fields(&mut fields);
                if !all_exact(store, &fields) {
                    return None;
                }
                store.passing(p, &fields, eval)
            },
        };
        let mut groups = store.group(group_by, &asked, &passed);
        let ghost t = crate::column::totals(groups@);
        let ghost all = groups@;
        let mut rows: Vec<ColumnRow> = Vec::new();
        let mut i: usize = 0;
        while i < groups.len()
            invariant
                i <= groups@.len(),
                groups@.len() == all.len(),
                t == crate::column::totals(all),
                forall|k: int| i <= k < all.len() ==> #[trigger] groups@[k] == all[k],
                are_totals(
                    m,
                    texts(group_by@),
                    agg_models(aggs@).map_values(|a: AggModel| asked_of_columns(a)),
                    passed@,
                    m.ids.len() as int,
                    t,
                ),
                rows@.len() == i,
                forall|k: int|
                    0 <= k < i ==> (#[trigger] rows@[k])@ == rows_of_totals(
                        texts(group_by@),
                        agg_models(aggs@),
                        t,
                    )[k],
            decreases groups.len() - i,
        {
            let ghost g = all[i as int];
            let (key, accs) = take_group(&mut groups, i);
            proof {
                assert(t[i as int] == (models(key@), crate::column::accums(accs@)));
                assert(t[i as int].1.len() == aggs@.len());
                lemma_group_width(
                    m,
                    texts(group_by@),
                    agg_models(aggs@).map_values(|a: AggModel| asked_of_columns(a)),
                    passed@,
                    t,
                    i as int,
                );
            }
            rows.push(group_row(i as u64, group_by, aggs, &key, accs));
            i += 1;
        }
        proof {
            assert(column_rows(rows@) =~= rows_of_totals(texts(group_by@), agg_models(aggs@), t));
            assert(self.columns_of(collection@) == Some(m));
            assert forall|keeps: Keeps| #[trigger] evaluates(*eval, keeps) implies aggregated(
                m,
                texts(group_by@),
                agg_models(aggs@),
                optional_expr(predicate),
                keeps,
                column_rows(rows@),
            ) by {
                assert(passed_by(m, optional_expr(predicate), keeps, passed@)) by {
                    assert forall|row: int| 0 <= row < m.ids.len() && !m.dead[row] implies row_passed(
                        m,
                        optional_expr(predicate),
                        keeps,
                        row,
                        #[trigger] passed@[row],
                    ) by {}
                }
            }
        }
        Some(rows)
    }
}

pub open spec fn optional_expr(p: Option<&Expr>) -> Option<ExprModel> {
    match p {
        Some(e) => Some(e.model()),
        None => None,
    }
}

/// A group's key has a value for each field it is grouped by.
proof fn lemma_group_width(
    m: StoreModel,
    group_by: Seq<Seq<char>>,
    aggs: Seq<ColumnAggModel>,
    passed: Seq<bool>,
    t: Totals,
    i: int,
)
    requires
        are_totals(m, group_by, aggs, passed, m.ids.len() as int, t),
        0 <= i < t.len(),
    ensures
        t[i].0.len() == group_by.len(),
{
    let key = t[i].0;
    assert(crate::column::has_group(t, key));
    assert(crate::column::group_seen(m, group_by, passed, key, m.ids.len() as int));
    let row = choose|row: int|
        0 <= row < m.ids.len() && #[trigger] crate::column::counts(m, passed, row)
            && crate::column::row_key(m, group_by, row) == key;
    assert(crate::column::row_key(m, group_by, row).len() == group_by.len());
}

/// Whether rows are a projection of a columnar copy: its live rows in the order of
/// their ids, each showing the fields asked for.
pub open spec fn projected(m: StoreModel, fields: Seq<Seq<char>>, rows: RowsModel) -> bool {
    exists|o: Seq<Spot>| #[trigger]
        in_id_order(m, o) && rows.len() == o.len() && forall|k: int|
            0 <= k < o.len() ==> (#[trigger] rows[k]).0 == o[k].0 && shows(
                m,
                fields,
                o[k].1 as int,
                rows[k].1,
            )
}

/// Whether ids are the first `k` in a sort by a field.
pub open spec fn topk(
    m: StoreModel,
    field: Seq<char>,
    descending: bool,
    k: nat,
    ids: Seq<u64>,
) -> bool {
    exists|o: Seq<Spot>| #[trigger]
        are_best(m, field, descending, k, m.ids.len() as int, o) && ids == o.map_values(
            |s: Spot| s.0,
        )
}

/// A scan answered from a columnar copy that says what the records say has one row
/// for each record and no other, showing what the copy keeps of the fields asked for.
pub proof fn a_columnar_scan_is_of_the_records(
    m: StoreModel,
    t: Records,
    fields: Seq<Seq<char>>,
    rows: RowsModel,
)
    requires
        columns_faithful(m, t),
        projected(m, fields, rows),
    ensures
        ascending(rows),
        forall|id: u64| #[trigger]
            t.dom().contains(id) <==> exists|k: int|
                0 <= k < rows.len() && (#[trigger] rows[k]).0 == id,
        forall|k: int, name: Seq<char>|
            0 <= k < rows.len() ==> #[trigger] field_of(rows[k].1, name) == if fields.contains(
                name,
            ) {
                kept_cell(m, name, field_of(t[rows[k].0], name))
            } else {
                None
            },
{
    let o = choose|o: Seq<Spot>| #[trigger]
        in_id_order(m, o) && rows.len() == o.len() && forall|k: int|
            0 <= k < o.len() ==> (#[trigger] rows[k]).0 == o[k].0 && shows(
                m,
                fields,
                o[k].1 as int,
                rows[k].1,
            );
    let live = live_spots(m, m.ids.len() as int);
    lemma_live_spots(m, m.ids.len() as int);
    o.to_multiset_ensures();
    live.to_multiset_ensures();
    lemma_live_distinct(m, m.ids.len() as int);
    live.lemma_multiset_has_no_duplicates();
    o.lemma_multiset_has_no_duplicates_conv();
    assert forall|k: int| 0 <= k < o.len() implies o[k].1 < m.ids.len() && !m.dead[(
    #[trigger] o[k]).1 as int] && o[k].0 == m.ids[o[k].1 as int] && t.dom().contains(o[k].0)
        && m.rows[o[k].0] == o[k].1 by {
        assert(o.contains(o[k]));
        assert(o.to_multiset().count(o[k]) > 0);
        assert(live.contains(o[k]));
        let j = choose|j: int| 0 <= j < live.len() && live[j] == o[k];
        assert(live[j].1 < m.ids.len());
        assert(m.rows.dom().contains(m.ids[o[k].1 as int]));
    }
    assert forall|i: int, j: int|
        #![trigger rows[i], rows[j]]
        0 <= i < j < rows.len() implies rows[i].0 < rows[j].0 by {
        assert(rows[i].0 == o[i].0 && rows[j].0 == o[j].0);
        assert(o[i] != o[j]);
        assert(m.rows[o[i].0] == o[i].1 && m.rows[o[j].0] == o[j].1);
    }
    assert forall|id: u64| #[trigger] t.dom().contains(id) implies exists|k: int|
        0 <= k < rows.len() && (#[trigger] rows[k]).0 == id by {
        assert(m.rows.dom().contains(id));
        let row = m.rows[id] as int;
        let spot = (m.ids[row], row as usize);
        assert(live.contains(spot));
        assert(live.to_multiset().count(spot) > 0);
        assert(o.contains(spot));
        let k = choose|k: int| 0 <= k < o.len() && o[k] == spot;
        assert(rows[k].0 == id);
    }
    assert forall|id: u64|
        (exists|k: int| 0 <= k < rows.len() && (#[trigger] rows[k]).0 == id) implies #[trigger] t.dom().contains(
        id,
    ) by {
        let k = choose|k: int| 0 <= k < rows.len() && (#[trigger] rows[k]).0 == id;
        assert(t.dom().contains(o[k].0));
    }
    assert forall|k: int, name: Seq<char>| 0 <= k < rows.len() implies #[trigger] field_of(
        rows[k].1,
        name,
    ) == if fields.contains(name) {
        kept_cell(m, name, field_of(t[rows[k].0], name))
    } else {
        None
    } by {
        assert(rows[k].0 == o[k].0);
        assert(t.dom().contains(o[k].0));
        assert(cell(m, name, m.rows[o[k].0] as int) == kept_cell(
            m,
            name,
            field_of(t[o[k].0], name),
        ));
    }
}

/// What a list of indexes costs to keep.
pub open spec fn indexes_cost(s: Seq<IndexModel>) -> usize
    decreases s.len(),
{
    if s.len() == 0 {
        0
    } else {
        capped(indexes_cost(s.drop_last()) + capped(s.last().entries.len() as int * 64))
    }
}

/// What the indexes of the first `n` collections cost to keep.
pub open spec fn all_indexes_cost(e: Seq<(Seq<char>, Vec<Index>)>, n: int) -> usize
    decreases n,
{
    if n <= 0 {
        0
    } else {
        capped(all_indexes_cost(e, n - 1) + indexes_cost(index_models(e[n - 1].1@)))
    }
}

/// What an array costs to keep.
pub open spec fn array_cost(a: DirectArray) -> usize {
    capped(
        capped(a@.capacity * layout_bytes(a@.schema.fields) + capped(a.words() as int * 8))
            + vstd::layout::size_of::<DirectArray>() as int,
    )
}

/// What the arrays of the first `n` collections cost to keep.
pub open spec fn arrays_cost(e: Seq<(Seq<char>, DirectArray)>, n: int) -> usize
    decreases n,
{
    if n <= 0 {
        0
    } else {
        capped(arrays_cost(e, n - 1) + array_cost(e[n - 1].1))
    }
}

/// What the columnar copies of the first `n` collections cost to keep.
pub open spec fn copies_cost(e: Seq<(Seq<char>, ColumnStore)>, n: int) -> usize
    decreases n,
{
    if n <= 0 {
        0
    } else {
        capped(copies_cost(e, n - 1) + copy_cost(e[n - 1].1@, e[n - 1].1.names()))
    }
}

/// A part of a whole, where nothing is no part.
pub open spec fn part_of(dead: nat, all: nat) -> (nat, nat) {
    if all == 0 {
        (0, 1)
    } else {
        (dead, all)
    }
}

/// The largest part of dead rows among the first `n` copies.
pub open spec fn worst_dead(e: Seq<(Seq<char>, ColumnStore)>, n: int) -> (nat, nat)
    decreases n,
{
    if n <= 0 {
        (0, 1)
    } else {
        let best = worst_dead(e, n - 1);
        let m = e[n - 1].1@;
        let own = part_of(tally(m.dead), m.ids.len());
        if best.0 * own.1 < own.0 * best.1 {
            own
        } else {
            best
        }
    }
}

impl Derived {
    /// Fields of every record, from a columnar copy. Nothing where there is none, or
    /// where it passed over a value of one of the fields.
    pub fn column_scan(&self, collection: &str, fields: &Vec<String>) -> (r: Option<Rows>)
        requires
            self.wf(),
        ensures
            match self.columns_of(collection@) {
                None => r is None,
                Some(m) => if exact_on(m, texts(fields@)) {
                    r matches Some(rows) && projected(m, texts(fields@), rows_model(rows@))
                } else {
                    r is None
                },
            },
    {
        let c = match self.columns.get(collection) {
            None => {
                return None;
            },
            Some(c) => c,
        };
        assert(self.columns.of(collection@) == Some(*c));
        if !all_exact(c, fields) {
            return None;
        }
        let mut refs: Vec<&str> = Vec::new();
        let mut i: usize = 0;
        while i < fields.len()
            invariant
                i <= fields@.len(),
                refs@.len() == i,
                forall|k: int| 0 <= k < i ==> (#[trigger] refs@[k])@ == fields@[k]@,
            decreases fields.len() - i,
        {
            refs.push(fields[i].as_str());
            i += 1;
        }
        let rows = c.project(refs.as_slice());
        proof {
            assert(names_in(refs@) =~= texts(fields@));
            let m = c@;
            let o = choose|o: Seq<Spot>| #[trigger]
                in_id_order(m, o) && rows@.len() == o.len() && forall|k: int|
                    0 <= k < o.len() ==> (#[trigger] rows@[k]).0 == o[k].0 && shows(
                        m,
                        names_in(refs@),
                        o[k].1 as int,
                        rows@[k].1.model(),
                    );
            let t = rows_model(rows@);
            assert forall|k: int| 0 <= k < o.len() implies (#[trigger] t[k]).0 == o[k].0 && shows(
                m,
                texts(fields@),
                o[k].1 as int,
                t[k].1,
            ) by {
                assert(rows@[k].0 == o[k].0);
            }
        }
        Some(rows)
    }

    /// The first `k` ids in a sort by a field, from a columnar copy. Nothing where
    /// there is none, or where it does not hold the field or passed over a value of it.
    pub fn column_topk(&self, collection: &str, field: &str, descending: bool, k: usize) -> (r:
        Option<Vec<u64>>)
        requires
            self.wf(),
        ensures
            match self.columns_of(collection@) {
                None => r is None,
                Some(m) => if crate::column::column_of(m, field@) is Some && !inexact(m, field@) {
                    r matches Some(ids) && topk(m, field@, descending, k as nat, ids@)
                } else {
                    r is None
                },
            },
    {
        match self.columns.get(collection) {
            None => None,
            Some(c) => {
                assert(self.columns.of(collection@) == Some(*c));
                if c.passed_over_values(field) {
                    None
                } else {
                    c.topk_ids(field, descending, k)
                }
            },
        }
    }

    pub fn has_column_store(&self, collection: &str) -> (r: bool)
        requires
            self.wf(),
        ensures
            r == (self.columns_of(collection@) is Some),
    {
        self.columns.contains(collection)
    }

    pub fn has_direct_array(&self, collection: &str) -> (r: bool)
        requires
            self.wf(),
        ensures
            r == (self.array_of(collection@) is Some),
    {
        self.direct.contains(collection)
    }

    /// What all indexes cost to keep.
    pub fn index_memory_bytes(&self) -> (n: usize)
        ensures
            n == all_indexes_cost(self.indexes.entries(), self.indexes.entries().len() as int),
    {
        let ghost e = self.indexes.entries();
        let mut n: usize = 0;
        let mut i: usize = 0;
        while i < self.indexes.pairs.len()
            invariant
                i <= self.indexes.pairs@.len(),
                e == self.indexes.entries(),
                e.len() == self.indexes.pairs@.len(),
                n == all_indexes_cost(e, i as int),
            decreases self.indexes.pairs.len() - i,
        {
            let list = &self.indexes.pairs[i].1;
            let ghost s = index_models(list@);
            let mut own: usize = 0;
            let mut k: usize = 0;
            assert(s.take(0) =~= Seq::empty());
            while k < list.len()
                invariant
                    k <= list@.len(),
                    s == index_models(list@),
                    own == indexes_cost(s.take(k as int)),
                decreases list.len() - k,
            {
                assert(s.take(k + 1).drop_last() =~= s.take(k as int));
                assert(s.take(k + 1).last() == list@[k as int]@);
                own = add_capped(own, list[k].memory_bytes());
                k += 1;
            }
            assert(s.take(k as int) =~= s);
            assert(e[i as int].1 == *list);
            n = add_capped(n, own);
            i += 1;
        }
        n
    }

    /// What all directly addressed arrays cost to keep.
    pub fn direct_memory_bytes(&self) -> (n: usize)
        requires
            self.wf(),
        ensures
            n == arrays_cost(self.direct.entries(), self.direct.entries().len() as int),
    {
        let ghost e = self.direct.entries();
        let mut n: usize = 0;
        let mut i: usize = 0;
        while i < self.direct.pairs.len()
            invariant
                i <= self.direct.pairs@.len(),
                self.wf(),
                e == self.direct.entries(),
                e.len() == self.direct.pairs@.len(),
                n == arrays_cost(e, i as int),
            decreases self.direct.pairs.len() - i,
        {
            proof {
                crate::strmap::lemma_named_at(e, i as int);
                assert(self.direct.of(e[i as int].0) == Some(self.direct.pairs@[i as int].1));
            }
            n = add_capped(n, self.direct.pairs[i].1.memory_bytes());
            i += 1;
        }
        n
    }

    /// What all columnar copies cost to keep.
    pub fn column_memory_bytes(&self) -> (n: usize)
        requires
            self.wf(),
        ensures
            n == copies_cost(self.columns.entries(), self.columns.entries().len() as int),
    {
        let ghost e = self.columns.entries();
        let mut n: usize = 0;
        let mut i: usize = 0;
        while i < self.columns.pairs.len()
            invariant
                i <= self.columns.pairs@.len(),
                self.wf(),
                e == self.columns.entries(),
                e.len() == self.columns.pairs@.len(),
                n == copies_cost(e, i as int),
            decreases self.columns.pairs.len() - i,
        {
            proof {
                crate::strmap::lemma_named_at(e, i as int);
                assert(self.columns.of(e[i as int].0) == Some(self.columns.pairs@[i as int].1));
            }
            n = add_capped(n, self.columns.pairs[i].1.memory_bytes());
            i += 1;
        }
        n
    }

    /// The largest part of dead rows among the columnar copies: dead rows out of
    /// all.
    pub fn column_store_dead_fraction(&self) -> (r: (usize, usize))
        requires
            self.wf(),
        ensures
            (r.0 as nat, r.1 as nat) == worst_dead(
                self.columns.entries(),
                self.columns.entries().len() as int,
            ),
    {
        let ghost e = self.columns.entries();
        let mut best: (usize, usize) = (0, 1);
        let mut i: usize = 0;
        while i < self.columns.pairs.len()
            invariant
                i <= self.columns.pairs@.len(),
                self.wf(),
                e == self.columns.entries(),
                e.len() == self.columns.pairs@.len(),
                (best.0 as nat, best.1 as nat) == worst_dead(e, i as int),
            decreases self.columns.pairs.len() - i,
        {
            proof {
                crate::strmap::lemma_named_at(e, i as int);
                assert(self.columns.of(e[i as int].0) == Some(self.columns.pairs@[i as int].1));
            }
            let (dead, all): (usize, usize) = self.columns.pairs[i].1.dead_fraction();
            let own: (usize, usize) = if all == 0 {
                (0, 1)
            } else {
                (dead, all)
            };
            proof {
                assert(best.0 * own.1 <= usize::MAX * usize::MAX && own.0 * best.1 <= usize::MAX
                    * usize::MAX) by (nonlinear_arith)
                    requires
                        best.0 <= usize::MAX,
                        best.1 <= usize::MAX,
                        own.0 <= usize::MAX,
                        own.1 <= usize::MAX,
                ;
                assert(usize::MAX * usize::MAX <= u128::MAX) by (nonlinear_arith)
                    requires
                        usize::MAX <= u64::MAX,
                ;
            }
            if (best.0 as u128 * own.1 as u128) < own.0 as u128 * best.1 as u128 {
                best = own;
            }
            i += 1;
        }
        best
    }
}

// -- what can be asked ----------------------------------------------------------------------

/// A columnar copy of records whose values are of one sort, field by field, can be asked
/// for any aggregate of them; and where no field tested is ever null, under any predicate.
pub proof fn a_copy_of_one_sort_can_be_asked(
    rows: RowsModel,
    group_by: Seq<Seq<char>>,
    aggs: Seq<AggModel>,
    predicate: Option<ExprModel>,
)
    requires
        forall|f: Seq<char>| #[trigger] of_one_sort(rows, f),
        forall|f: Seq<char>| (predicate matches Some(p) && occurs_in(ExprModel::Field(f), p))
            ==> !#[trigger] has_null(rows, f),
    ensures
        keeps_for(columns_of(rows), group_by, aggs, predicate),
{
    let m = columns_of(rows);
    assert forall|f: Seq<char>| !#[trigger] lossy(m, f) by {
        assert(of_one_sort(rows, f));
        a_copy_keeps_what_is_of_one_sort(rows, f);
    }
    let tested = tested_fields(predicate);
    assert forall|k: int| 0 <= k < tested.len() implies !inexact(m, #[trigger] tested[k]) by {
        let f = tested[k];
        assert(tested.contains(f));
        what_is_mentioned_stands_in_the_expression(predicate->Some_0, Seq::empty(), f);
        assert(!has_null(rows, f));
        assert(of_one_sort(rows, f));
        a_copy_keeps_what_is_of_one_sort(rows, f);
    }
}

/// How many entries indexes have together.
pub open spec fn entries_together(s: Seq<IndexModel>) -> nat
    decreases s.len(),
{
    if s.len() == 0 {
        0
    } else {
        entries_together(s.drop_last()) + s.last().entries.len()
    }
}

/// Indexes take so many bytes an entry, as far as that can be counted.
pub proof fn indexes_take_what_their_entries_take(s: Seq<IndexModel>)
    ensures
        indexes_cost(s) == capped(64 * entries_together(s) as int),
    decreases s.len(),
{
    if s.len() > 0 {
        indexes_take_what_their_entries_take(s.drop_last());
    }
}

/// Among columnar copies the one is told of whose part of dead rows is the largest: no
/// copy has a larger one, and one has it, unless none has a dead row.
pub proof fn the_worst_copy_is_told_of(e: Seq<(Seq<char>, ColumnStore)>, n: int)
    requires
        0 <= n <= e.len(),
        forall|k: int| 0 <= k < n ==> (#[trigger] e[k]).1.wf(),
    ensures
        forall|k: int|
            0 <= k < n ==> tally((#[trigger] e[k]).1@.dead) * worst_dead(e, n).1 <= worst_dead(
                e,
                n,
            ).0 * e[k].1@.ids.len(),
        worst_dead(e, n) == (0nat, 1nat) || exists|k: int|
            0 <= k < n && worst_dead(e, n) == (tally((#[trigger] e[k]).1@.dead), e[k].1@.ids.len()),
        worst_dead(e, n).1 > 0,
    decreases n,
{
    if n > 0 {
        the_worst_copy_is_told_of(e, n - 1);
        let best = worst_dead(e, n - 1);
        let now = worst_dead(e, n);
        let x = e[n - 1].1;
        x.a_store_is_coherent();
        let (d, a) = (tally(x@.dead), x@.ids.len());
        if a == 0 {
            assert(x@.dead =~= Seq::empty());
        }
        assert forall|k: int| 0 <= k < n implies tally((#[trigger] e[k]).1@.dead) * now.1 <= now.0
            * e[k].1@.ids.len() by {
            let (p, q) = (tally(e[k].1@.dead), e[k].1@.ids.len());
            let (b, c) = (best.0, best.1);
            if a == 0 {
                assert(now == best);
                if k == n - 1 {
                    assert(p * c == 0 && b * q == 0) by (nonlinear_arith)
                        requires
                            p == 0,
                            q == 0,
                    {}
                }
            } else if b * a < d * c {
                assert(now == (d, a));
                if k < n - 1 {
                    assert(p * c <= b * q);
                    assert(p * a <= d * q) by (nonlinear_arith)
                        requires
                            p * c <= b * q,
                            b * a < d * c,
                            c > 0,
                            q >= 0,
                            a >= 0,
                    {
                        assert((p * c) * a <= (b * q) * a);
                        assert((b * a) * q <= (d * c) * q);
                        assert((p * a) * c <= (d * q) * c);
                    }
                }
            } else {
                assert(now == best);
            }
        }
    }
}

/// A scan that a columnar copy may answer shows of the fields asked for what the records
/// hold: every value, nulls as nulls, and nothing that they do not hold.
pub proof fn a_scan_from_a_copy_shows_what_the_records_hold(
    m: StoreModel,
    t: Records,
    fields: Seq<Seq<char>>,
    rows: RowsModel,
)
    requires
        columns_faithful(m, t),
        exact_on(m, fields),
        projected(m, fields, rows),
    ensures
        forall|k: int, name: Seq<char>|
            0 <= k < rows.len() ==> #[trigger] field_of(rows[k].1, name) == if fields.contains(
                name,
            ) {
                field_of(t[rows[k].0], name)
            } else {
                None
            },
{
    a_columnar_scan_is_of_the_records(m, t, fields, rows);
    assert forall|k: int, name: Seq<char>| 0 <= k < rows.len() implies #[trigger] field_of(
        rows[k].1,
        name,
    ) == if fields.contains(name) {
        field_of(t[rows[k].0], name)
    } else {
        None
    } by {
        let id = rows[k].0;
        assert(t.dom().contains(id));
        let v = field_of(t[id], name);
        if fields.contains(name) {
            let i = choose|i: int| 0 <= i < fields.len() && fields[i] == name;
            assert(!inexact(m, fields[i]));
            if v is Some {
                assert(m.columns.dom().contains(name));
                assert(owned_to(m, name, v));
            }
        }
    }
}

} // verus!
