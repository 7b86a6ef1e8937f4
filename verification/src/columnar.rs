//! What a columnar copy answers is what the records answer.
//!
//! A copy knows whether it passed over a value of a field. Where it did not, a
//! projection shows the records' own values, the best rows are the head of the records
//! sorted, and an aggregate is the one folded over the records; and where it did, it is
//! not asked.

use vstd::prelude::*;
use crate::column::{
    accumulated, are_best, are_totals, cell, counts, group_seen, group_total, groups_ordered,
    has_group, key_first, lemma_live_distinct, lemma_live_spots, live_spots, nothing_seen, row_key,
    inexact, lossy, shows, AccumModel, ColumnAggModel, StoreModel, Totals,
};
use crate::derived::{columns_faithful, enumerates, kept_cell, listed, owned_to};
use crate::expr::ExprModel;
use crate::index::{Keeps, Records};
use crate::matview::magnitude;
use crate::number::{number, NumberModel, EXACT_INTEGER_LIMIT};
use crate::plan::{AggKind, AggModel};
use crate::record::{field_of, RecordModel};
use crate::rows::RowsModel;
use crate::sorting::Spot;
use crate::structures::{
    a_columnar_scan_is_of_the_records, aggregated, asked_of_columns, column_reported, exact_on,
    group_cells, keeps_for, passed_by, projected, row_passed, rows_of_totals, tested_fields, topk,
    ColumnCellModel, ColumnCells,
};
use crate::value::{
    lemma_list_before_total, lemma_value_before_total, lemma_value_before_transitive, list_before,
    value_before, ValueModel,
};

verus! {

/// The ids of the live ones among the first `n` rows of a copy.
pub open spec fn live_ids(m: StoreModel, n: int) -> Seq<u64> {
    live_spots(m, n).map_values(|s: Spot| s.0)
}

proof fn lemma_live_row(m: StoreModel, t: Records, row: int)
    requires
        columns_faithful(m, t),
        0 <= row < m.ids.len(),
        !m.dead[row],
    ensures
        t.dom().contains(m.ids[row]),
        m.rows[m.ids[row]] == row,
{
    assert(m.rows.dom().contains(m.ids[row]));
}

/// A live row holds its record's own value of a field the copy passed over no value
/// of.
proof fn lemma_exact_cell(m: StoreModel, t: Records, name: Seq<char>, row: int)
    requires
        columns_faithful(m, t),
        !inexact(m, name),
        0 <= row < m.ids.len(),
        !m.dead[row],
    ensures
        cell(m, name, row) == field_of(t[m.ids[row]], name),
{
    lemma_live_row(m, t, row);
    let id = m.ids[row];
    assert(cell(m, name, m.rows[id] as int) == kept_cell(m, name, field_of(t[id], name)));
    assert(owned_to(m, name, field_of(t[id], name)));
}

/// A live row holds its record's own value of a field the copy lost no value of, or
/// nothing where that is null.
proof fn lemma_lossless_cell(m: StoreModel, t: Records, name: Seq<char>, row: int)
    requires
        columns_faithful(m, t),
        !lossy(m, name),
        0 <= row < m.ids.len(),
        !m.dead[row],
    ensures
        cell(m, name, row) == field_of(t[m.ids[row]], name) || (cell(m, name, row) is None
            && field_of(t[m.ids[row]], name) == Some(ValueModel::Null)),
{
    lemma_live_row(m, t, row);
    let id = m.ids[row];
    assert(cell(m, name, m.rows[id] as int) == kept_cell(m, name, field_of(t[id], name)));
    assert(owned_to(m, name, field_of(t[id], name)));
}

/// A copy that says what the records say lists each of them once.
proof fn lemma_live_ids(m: StoreModel, t: Records)
    requires
        columns_faithful(m, t),
    ensures
        enumerates(live_ids(m, m.ids.len() as int), t),
{
    let n = m.ids.len() as int;
    let live = live_spots(m, n);
    let ids = live_ids(m, n);
    lemma_live_spots(m, n);
    lemma_live_distinct(m, n);
    assert forall|i: int, j: int| 0 <= i < ids.len() && 0 <= j < ids.len() && i != j implies ids[i]
        != ids[j] by {
        assert(live[i] != live[j]);
        lemma_live_row(m, t, live[i].1 as int);
        lemma_live_row(m, t, live[j].1 as int);
    }
    assert forall|id: u64| #[trigger] ids.contains(id) <==> t.dom().contains(id) by {
        if ids.contains(id) {
            let i = choose|i: int| 0 <= i < ids.len() && ids[i] == id;
            assert(live[i].0 == id);
            lemma_live_row(m, t, live[i].1 as int);
        }
        if t.dom().contains(id) {
            assert(m.rows.dom().contains(id));
            let row = m.rows[id] as int;
            let spot = (m.ids[row], row as usize);
            assert(live.contains(spot));
            let k = choose|k: int| 0 <= k < live.len() && live[k] == spot;
            assert(ids[k] == id);
        }
    }
}

// -- projections ------------------------------------------------------------------

/// A projected field is the record's own, or is absent; and it is the record's own,
/// absent only where the record does not have it, where the copy passed over no value
/// of the fields. A scan of columns is answered only then.
pub proof fn a_projected_field_is_the_records_own(
    m: StoreModel,
    t: Records,
    fields: Seq<Seq<char>>,
    rows: RowsModel,
    k: int,
    name: Seq<char>,
)
    requires
        columns_faithful(m, t),
        projected(m, fields, rows),
        0 <= k < rows.len(),
    ensures
        t.dom().contains(rows[k].0),
        field_of(rows[k].1, name) is None || (fields.contains(name) && field_of(rows[k].1, name)
            == field_of(t[rows[k].0], name)),
        fields.contains(name) && exact_on(m, fields) ==> field_of(rows[k].1, name)
            == field_of(t[rows[k].0], name),
{
    a_columnar_scan_is_of_the_records(m, t, fields, rows);
    let id = rows[k].0;
    assert(t.dom().contains(id));
    assert(field_of(rows[k].1, name) == if fields.contains(name) {
        kept_cell(m, name, field_of(t[id], name))
    } else {
        None
    });
    if fields.contains(name) && exact_on(m, fields) {
        let j = choose|j: int| 0 <= j < fields.len() && fields[j] == name;
        assert(!inexact(m, fields[j]));
        assert(owned_to(m, name, field_of(t[id], name)));
    }
}

// -- the best records ---------------------------------------------------------------

/// The order of a sort of records by a field: by value, a record without one last,
/// the other way round where the sort is descending; and by ids between equal values.
pub open spec fn record_first(
    t: Records,
    field: Seq<char>,
    descending: bool,
    a: u64,
    b: u64,
) -> bool {
    let (x, y) = (field_of(t[a], field), field_of(t[b], field));
    key_first(x, y, descending) || (x == y && a < b)
}

/// Whether ids are the first `k` of the records in a sort by a field: they stand in
/// order, every other record comes after all of them, and there are fewer than `k`
/// only where there are no others.
pub open spec fn heads_records(
    t: Records,
    field: Seq<char>,
    descending: bool,
    k: nat,
    ids: Seq<u64>,
) -> bool {
    &&& ids.len() <= k
    &&& forall|i: int| 0 <= i < ids.len() ==> t.dom().contains(#[trigger] ids[i])
    &&& forall|i: int, j: int|
        #![trigger ids[i], ids[j]]
        0 <= i < j < ids.len() ==> record_first(t, field, descending, ids[i], ids[j])
    &&& forall|id: u64|
        t.dom().contains(id) && !#[trigger] ids.contains(id) ==> ids.len() == k && forall|i: int|
            0 <= i < ids.len() ==> record_first(t, field, descending, #[trigger] ids[i], id)
}

/// The best rows of a copy are the head of the records sorted by value and then by
/// id, where the copy passed over no value of the field. They are asked for only then.
pub proof fn the_best_rows_head_the_records(
    m: StoreModel,
    t: Records,
    field: Seq<char>,
    descending: bool,
    k: nat,
    ids: Seq<u64>,
)
    requires
        columns_faithful(m, t),
        !inexact(m, field),
        topk(m, field, descending, k, ids),
    ensures
        heads_records(t, field, descending, k, ids),
{
    let n = m.ids.len() as int;
    let live = live_spots(m, n);
    lemma_live_spots(m, n);
    lemma_live_distinct(m, n);
    let o = choose|o: Seq<Spot>| #[trigger]
        are_best(m, field, descending, k, n, o) && ids == o.map_values(|s: Spot| s.0);
    assert forall|s: Spot| #[trigger] live.contains(s) implies t.dom().contains(s.0) && cell(
        m,
        field,
        s.1 as int,
    ) == field_of(t[s.0], field) && m.rows[s.0] == s.1 by {
        let j = choose|j: int| 0 <= j < live.len() && live[j] == s;
        assert(live[j].1 < n);
        lemma_live_row(m, t, s.1 as int);
        lemma_exact_cell(m, t, field, s.1 as int);
    }
    assert forall|i: int| 0 <= i < ids.len() implies t.dom().contains(#[trigger] ids[i]) by {
        assert(live.contains(o[i]));
    }
    assert forall|i: int, j: int|
        #![trigger ids[i], ids[j]]
        0 <= i < j < ids.len() implies record_first(t, field, descending, ids[i], ids[j]) by {
        assert(live.contains(o[i]) && live.contains(o[j]));
        if o[i].0 == o[j].0 {
            assert(o[i] == o[j]);
            if cell(m, field, o[i].1 as int) is Some {
                lemma_value_before_total(
                    cell(m, field, o[i].1 as int)->Some_0,
                    cell(m, field, o[i].1 as int)->Some_0,
                );
            }
        }
    }
    assert forall|i: int, j: int| 0 <= i < j < o.len() implies o[i] != o[j] by {
        assert(record_first(t, field, descending, ids[i], ids[j]));
        if o[i] == o[j] && field_of(t[ids[i]], field) is Some {
            let v = field_of(t[ids[i]], field)->Some_0;
            lemma_value_before_total(v, v);
        }
    }
    assert forall|id: u64| t.dom().contains(id) && !#[trigger] ids.contains(id) implies ids.len()
        == k && forall|i: int|
        0 <= i < ids.len() ==> record_first(t, field, descending, #[trigger] ids[i], id) by {
        assert(m.rows.dom().contains(id));
        let row = m.rows[id] as int;
        let s = (id, row as usize);
        assert(m.ids[row] == id);
        assert(live.contains(s));
        assert(!o.contains(s)) by {
            if o.contains(s) {
                let j = choose|j: int| 0 <= j < o.len() && o[j] == s;
                assert(ids[j] == id);
            }
        }
        if live.len() < k || o.len() == live.len() {
            lemma_none_left(o, live, s);
        }
        assert forall|i: int| 0 <= i < ids.len() implies record_first(
            t,
            field,
            descending,
            #[trigger] ids[i],
            id,
        ) by {
            assert(live.contains(o[i]));
            if o[i].0 == id {
                assert(o[i] == s);
                assert(o.contains(o[i]));
            }
        }
    }
}

/// Whether a value may stand before another in a sort that ascends: one that is there
/// before one that is not, and never after one that sorts before it.
pub open spec fn may_precede(x: Option<ValueModel>, y: Option<ValueModel>) -> bool {
    match (x, y) {
        (Some(v), Some(w)) => !value_before(w, v),
        (Some(_), None) => true,
        (None, Some(_)) => false,
        (None, None) => true,
    }
}

/// The best records of a field, where the sort ascends, are those with the least values,
/// least first, and where it descends those with the greatest, greatest first; equal
/// values stand by their ids either way. A record without a value stands last where the
/// sort ascends and first where it descends. As many are given as were asked for, as far
/// as there are records.
pub proof fn the_best_records_are_least_or_greatest(
    m: StoreModel,
    t: Records,
    field: Seq<char>,
    descending: bool,
    k: nat,
    ids: Seq<u64>,
)
    requires
        columns_faithful(m, t),
        !inexact(m, field),
        topk(m, field, descending, k, ids),
    ensures
        ids.len() <= k,
        ids.no_duplicates(),
        forall|i: int| 0 <= i < ids.len() ==> t.dom().contains(#[trigger] ids[i]),
        forall|i: int, j: int|
            #![trigger ids[i], ids[j]]
            0 <= i < j < ids.len() ==> {
                let (x, y) = (field_of(t[ids[i]], field), field_of(t[ids[j]], field));
                &&& !descending ==> may_precede(x, y)
                &&& descending ==> may_precede(y, x)
                &&& x == y ==> ids[i] < ids[j]
            },
        forall|id: u64, i: int|
            #![trigger t.dom().contains(id), ids[i]]
            t.dom().contains(id) && !ids.contains(id) && 0 <= i < ids.len() ==> {
                let (x, y) = (field_of(t[ids[i]], field), field_of(t[id], field));
                &&& !descending ==> may_precede(x, y)
                &&& descending ==> may_precede(y, x)
                &&& x == y ==> ids[i] < id
            },
        forall|id: u64| #[trigger] t.dom().contains(id) && !ids.contains(id) ==> ids.len() == k,
{
    the_best_rows_head_the_records(m, t, field, descending, k, ids);
    assert forall|a: u64, b: u64| #[trigger] record_first(t, field, descending, a, b) implies {
        let (x, y) = (field_of(t[a], field), field_of(t[b], field));
        &&& !descending ==> may_precede(x, y)
        &&& descending ==> may_precede(y, x)
        &&& x == y ==> a < b
    } by {
        let (x, y) = (field_of(t[a], field), field_of(t[b], field));
        if let (Some(v), Some(w)) = (x, y) {
            lemma_value_before_total(v, w);
            lemma_value_before_total(v, v);
        }
    }
    assert forall|i: int, j: int| 0 <= i < ids.len() && 0 <= j < ids.len() && i != j implies ids[i]
        != ids[j] by {
        if i < j {
            assert(record_first(t, field, descending, ids[i], ids[j]));
        } else {
            assert(record_first(t, field, descending, ids[j], ids[i]));
        }
    }
    assert forall|id: u64, i: int|
        #![trigger t.dom().contains(id), ids[i]]
        t.dom().contains(id) && !ids.contains(id) && 0 <= i < ids.len() implies record_first(
        t,
        field,
        descending,
        ids[i],
        id,
    ) by {}
}

/// Of as many distinct spots as there are, none is missing.
proof fn lemma_none_left(o: Seq<Spot>, live: Seq<Spot>, s: Spot)
    requires
        o.len() == live.len(),
        live.no_duplicates(),
        forall|i: int| 0 <= i < o.len() ==> live.contains(#[trigger] o[i]),
        forall|i: int, j: int| 0 <= i < j < o.len() ==> o[i] != o[j],
        live.contains(s),
    ensures
        o.contains(s),
{
    o.unique_seq_to_set();
    live.unique_seq_to_set();
    assert(o.to_set().subset_of(live.to_set())) by {
        assert forall|x: Spot| o.to_set().contains(x) implies live.to_set().contains(x) by {
            let i = choose|i: int| 0 <= i < o.len() && o[i] == x;
            assert(live.contains(o[i]));
        }
    }
    vstd::set_lib::lemma_subset_equality(o.to_set(), live.to_set());
    assert(live.to_set().contains(s));
}

// -- aggregates -----------------------------------------------------------------------

/// Whether a predicate keeps a record. Without one every record is kept.
pub open spec fn passes(predicate: Option<ExprModel>, keeps: Keeps, r: RecordModel) -> bool {
    match predicate {
        None => true,
        Some(p) => keeps(p, r),
    }
}

/// Whether a predicate is decided by the fields it mentions.
pub open spec fn reads_only_its_fields(predicate: Option<ExprModel>, keeps: Keeps) -> bool {
    predicate matches Some(p) ==> forall|a: RecordModel, b: RecordModel|
        #![trigger keeps(p, a), keeps(p, b)]
        (forall|k: int|
            0 <= k < tested_fields(predicate).len() ==> field_of(
                a,
                #[trigger] tested_fields(predicate)[k],
            ) == field_of(b, tested_fields(predicate)[k])) ==> keeps(p, a) == keeps(p, b)
}

/// The group a record belongs to: a field it does not have counts as null.
pub open spec fn record_key(group_by: Seq<Seq<char>>, r: RecordModel) -> Seq<ValueModel> {
    Seq::new(
        group_by.len(),
        |i: int|
            match field_of(r, group_by[i]) {
                Some(v) => v,
                None => ValueModel::Null,
            },
    )
}

/// What an aggregate takes from a record.
pub open spec fn taken_from(a: ColumnAggModel, r: RecordModel) -> Option<ValueModel> {
    match a.field {
        Some(f) => field_of(r, f),
        None => None,
    }
}

/// Which records an aggregate is over, how they are grouped, and what is asked.
pub struct Asking {
    pub group_by: Seq<Seq<char>>,
    pub predicate: Option<ExprModel>,
    pub keeps: Keeps,
}

/// Whether a record belongs to a group of what is asked.
pub open spec fn belongs(q: Asking, key: Seq<ValueModel>, r: RecordModel) -> bool {
    passes(q.predicate, q.keeps, r) && record_key(q.group_by, r) == key
}

/// What an aggregate comes to over a group of records, folded in their order.
pub open spec fn record_total(
    rs: Seq<RecordModel>,
    q: Asking,
    a: ColumnAggModel,
    key: Seq<ValueModel>,
) -> AccumModel
    decreases rs.len(),
{
    if rs.len() == 0 {
        nothing_seen()
    } else {
        let before = record_total(rs.drop_last(), q, a, key);
        if belongs(q, key, rs.last()) {
            accumulated(before, a.counts_rows, taken_from(a, rs.last()))
        } else {
            before
        }
    }
}

/// Whether a record belongs to a group.
pub open spec fn group_among(rs: Seq<RecordModel>, q: Asking, key: Seq<ValueModel>) -> bool {
    exists|k: int| 0 <= k < rs.len() && belongs(q, key, #[trigger] rs[k])
}

/// Whether totals are those of records: the groups that a record belongs to, in
/// order, each with what every aggregate comes to over its records.
pub open spec fn totals_of(
    rs: Seq<RecordModel>,
    q: Asking,
    aggs: Seq<AggModel>,
    t: Totals,
) -> bool {
    &&& groups_ordered(t)
    &&& forall|key: Seq<ValueModel>| #[trigger] has_group(t, key) <==> group_among(rs, q, key)
    &&& forall|i: int|
        0 <= i < t.len() ==> (#[trigger] t[i]).1 == Seq::new(
            aggs.len(),
            |j: int| record_total(rs, q, asked_of_columns(aggs[j]), t[i].0),
        )
}

/// Whether rows are the answer of an aggregate folded over records: one for each
/// group.
pub open spec fn folded_over(
    rs: Seq<RecordModel>,
    q: Asking,
    aggs: Seq<AggModel>,
    rows: Seq<(u64, ColumnCells)>,
) -> bool {
    exists|t: Totals| #[trigger]
        totals_of(rs, q, aggs, t) && rows == rows_of_totals(q.group_by, aggs, t)
}

proof fn lemma_row_belongs(
    m: StoreModel,
    t: Records,
    q: Asking,
    passed: Seq<bool>,
    key: Seq<ValueModel>,
    row: int,
)
    requires
        columns_faithful(m, t),
        keeps_for(m, q.group_by, Seq::empty(), q.predicate),
        reads_only_its_fields(q.predicate, q.keeps),
        passed_by(m, q.predicate, q.keeps, passed),
        0 <= row < m.ids.len(),
        !m.dead[row],
    ensures
        t.dom().contains(m.ids[row]),
        belongs(q, key, t[m.ids[row]]) == (counts(m, passed, row) && row_key(m, q.group_by, row)
            == key),
{
    lemma_live_row(m, t, row);
    let r = t[m.ids[row]];
    assert forall|i: int| 0 <= i < q.group_by.len() implies row_key(m, q.group_by, row)[i]
        == record_key(q.group_by, r)[i] by {
        assert(!lossy(m, q.group_by[i]));
        lemma_lossless_cell(m, t, q.group_by[i], row);
    }
    assert(row_key(m, q.group_by, row) =~= record_key(q.group_by, r));
    assert(row_passed(m, q.predicate, q.keeps, row, passed[row]));
    if let Some(p) = q.predicate {
        let fields = tested_fields(q.predicate);
        let shown = choose|x: RecordModel| #[trigger]
            shows(m, fields, row, x) && passed[row] == (q.keeps)(p, x);
        assert forall|k: int| 0 <= k < fields.len() implies field_of(shown, #[trigger] fields[k])
            == field_of(r, fields[k]) by {
            assert(!inexact(m, fields[k]));
            lemma_exact_cell(m, t, fields[k], row);
            assert(fields.contains(fields[k]));
        }
        assert((q.keeps)(p, shown) == (q.keeps)(p, r));
    }
}

proof fn lemma_total_of_rows(
    m: StoreModel,
    t: Records,
    q: Asking,
    passed: Seq<bool>,
    a: ColumnAggModel,
    key: Seq<ValueModel>,
    n: int,
)
    requires
        columns_faithful(m, t),
        keeps_for(m, q.group_by, Seq::empty(), q.predicate),
        a.field matches Some(f) ==> !lossy(m, f),
        reads_only_its_fields(q.predicate, q.keeps),
        passed_by(m, q.predicate, q.keeps, passed),
        0 <= n <= m.ids.len(),
    ensures
        group_total(m, q.group_by, a, passed, key, n) == record_total(
            listed(live_ids(m, n), t),
            q,
            a,
            key,
        ),
        group_seen(m, q.group_by, passed, key, n) == group_among(listed(live_ids(m, n), t), q, key),
    decreases n,
{
    let rs = listed(live_ids(m, n), t);
    if n > 0 {
        let row = n - 1;
        let before = listed(live_ids(m, row), t);
        lemma_total_of_rows(m, t, q, passed, a, key, row);
        if group_seen(m, q.group_by, passed, key, row) {
            let x = choose|x: int|
                0 <= x < row && #[trigger] counts(m, passed, x) && row_key(m, q.group_by, x) == key;
            assert(counts(m, passed, x));
        }
        if group_seen(m, q.group_by, passed, key, n) {
            let x = choose|x: int|
                0 <= x < n && #[trigger] counts(m, passed, x) && row_key(m, q.group_by, x) == key;
            if x < row {
                assert(group_seen(m, q.group_by, passed, key, row));
            }
        }
        if m.dead[row] {
            assert(rs =~= before);
        } else {
            let r = t[m.ids[row]];
            assert(rs =~= before.push(r));
            assert(rs.drop_last() =~= before);
            lemma_row_belongs(m, t, q, passed, key, row);
            if let Some(f) = a.field {
                lemma_lossless_cell(m, t, f, row);
            }
            assert(rs[rs.len() - 1] == r);
            if group_among(before, q, key) {
                let k = choose|k: int|
                    0 <= k < before.len() && belongs(q, key, #[trigger] before[k]);
                assert(rs[k] == before[k]);
            }
            if group_among(rs, q, key) {
                let k = choose|k: int| 0 <= k < rs.len() && belongs(q, key, #[trigger] rs[k]);
                if k < before.len() {
                    assert(before[k] == rs[k]);
                } else {
                    assert(counts(m, passed, row));
                }
            }
        }
    } else {
        assert(rs =~= Seq::empty());
    }
}

/// An aggregate answered from a copy is the one folded over the records, each of them
/// once, where the copy keeps what the aggregate reads. It is answered only then.
pub proof fn a_columnar_aggregate_is_of_the_records(
    m: StoreModel,
    t: Records,
    q: Asking,
    aggs: Seq<AggModel>,
    rows: Seq<(u64, ColumnCells)>,
)
    requires
        columns_faithful(m, t),
        keeps_for(m, q.group_by, aggs, q.predicate),
        reads_only_its_fields(q.predicate, q.keeps),
        aggregated(m, q.group_by, aggs, q.predicate, q.keeps, rows),
    ensures
        exists|ids: Seq<u64>| #[trigger] enumerates(ids, t) && folded_over(
            listed(ids, t),
            q,
            aggs,
            rows,
        ),
{
    let n = m.ids.len() as int;
    let asked = aggs.map_values(|a: AggModel| asked_of_columns(a));
    let (passed, w) = choose|passed: Seq<bool>, w: Totals|
        #![trigger passed_by(m, q.predicate, q.keeps, passed), rows_of_totals(q.group_by, aggs, w)]
        passed_by(m, q.predicate, q.keeps, passed) && are_totals(
            m,
            q.group_by,
            asked,
            passed,
            n,
            w,
        ) && rows == rows_of_totals(q.group_by, aggs, w);
    let ids = live_ids(m, n);
    let rs = listed(ids, t);
    lemma_live_ids(m, t);
    let plain = ColumnAggModel { field: None, counts_rows: true };
    assert forall|key: Seq<ValueModel>| #[trigger] has_group(w, key) <==> group_among(rs, q, key) by {
        lemma_total_of_rows(m, t, q, passed, plain, key, n);
        assert(group_seen(m, q.group_by, passed, key, n) <==> has_group(w, key));
    }
    assert forall|i: int| 0 <= i < w.len() implies (#[trigger] w[i]).1 == Seq::new(
        aggs.len(),
        |j: int| record_total(rs, q, asked_of_columns(aggs[j]), w[i].0),
    ) by {
        assert forall|j: int| 0 <= j < aggs.len() implies #[trigger] w[i].1[j] == record_total(
            rs,
            q,
            asked_of_columns(aggs[j]),
            w[i].0,
        ) by {
            assert(asked[j] == asked_of_columns(aggs[j]));
            lemma_total_of_rows(m, t, q, passed, asked[j], w[i].0, n);
        }
        assert(w[i].1 =~= Seq::new(
            aggs.len(),
            |j: int| record_total(rs, q, asked_of_columns(aggs[j]), w[i].0),
        ));
    }
    assert(totals_of(rs, q, aggs, w));
}

// -- groups and rows ------------------------------------------------------------------

/// How many of the first `n` rows count.
pub open spec fn counted_rows(m: StoreModel, passed: Seq<bool>, n: int) -> nat
    decreases n,
{
    if n <= 0 {
        0
    } else {
        counted_rows(m, passed, n - 1) + if counts(m, passed, n - 1) {
            1nat
        } else {
            0
        }
    }
}

/// What the `j`-th count of every group adds up to.
pub open spec fn counts_of_groups(t: Totals, j: int) -> nat
    decreases t.len(),
{
    if t.len() == 0 {
        0
    } else {
        counts_of_groups(t.drop_last(), j) + t.last().1[j].count
    }
}

/// What the groups of the first `g` keys count among the first `n` rows.
spec fn counts_so_far(
    m: StoreModel,
    group_by: Seq<Seq<char>>,
    a: ColumnAggModel,
    passed: Seq<bool>,
    t: Totals,
    g: int,
    n: int,
) -> nat
    decreases g,
{
    if g <= 0 {
        0
    } else {
        counts_so_far(m, group_by, a, passed, t, g - 1, n) + group_total(
            m,
            group_by,
            a,
            passed,
            t[g - 1].0,
            n,
        ).count
    }
}

proof fn lemma_next_row_counted(
    m: StoreModel,
    group_by: Seq<Seq<char>>,
    a: ColumnAggModel,
    passed: Seq<bool>,
    t: Totals,
    g: int,
    n: int,
)
    requires
        a.counts_rows,
        0 <= n,
        0 <= g <= t.len(),
        groups_ordered(t),
    ensures
        counts_so_far(m, group_by, a, passed, t, g, n + 1) == counts_so_far(
            m,
            group_by,
            a,
            passed,
            t,
            g,
            n,
        ) + if counts(m, passed, n) && has_group(t.take(g), row_key(m, group_by, n)) {
            1nat
        } else {
            0
        },
    decreases g,
{
    let key = row_key(m, group_by, n);
    if g > 0 {
        lemma_next_row_counted(m, group_by, a, passed, t, g - 1, n);
        let (x, y) = (t.take(g - 1), t.take(g));
        assert(y[g - 1] == t[g - 1]);
        if has_group(x, key) {
            let i = choose|i: int| 0 <= i < x.len() && (#[trigger] x[i]).0 == key;
            assert(y[i].0 == key);
            assert(list_before(t[i].0, t[g - 1].0));
            lemma_list_before_total(t[i].0, t[g - 1].0);
        }
        if has_group(y, key) {
            let i = choose|i: int| 0 <= i < y.len() && (#[trigger] y[i]).0 == key;
            if i < g - 1 {
                assert(x[i].0 == key);
            }
        }
    }
}

proof fn lemma_counts_so_far(
    m: StoreModel,
    group_by: Seq<Seq<char>>,
    a: ColumnAggModel,
    passed: Seq<bool>,
    t: Totals,
    n: int,
    all: int,
)
    requires
        a.counts_rows,
        0 <= n <= all,
        groups_ordered(t),
        forall|key: Seq<ValueModel>|
            group_seen(m, group_by, passed, key, all) <==> #[trigger] has_group(t, key),
    ensures
        counts_so_far(m, group_by, a, passed, t, t.len() as int, n) == counted_rows(m, passed, n),
    decreases n,
{
    if n > 0 {
        lemma_counts_so_far(m, group_by, a, passed, t, n - 1, all);
        lemma_next_row_counted(m, group_by, a, passed, t, t.len() as int, n - 1);
        assert(t.take(t.len() as int) =~= t);
        if counts(m, passed, n - 1) {
            assert(group_seen(m, group_by, passed, row_key(m, group_by, n - 1), all));
        }
    } else {
        lemma_no_rows(m, group_by, a, passed, t, t.len() as int);
    }
}

proof fn lemma_no_rows(
    m: StoreModel,
    group_by: Seq<Seq<char>>,
    a: ColumnAggModel,
    passed: Seq<bool>,
    t: Totals,
    g: int,
)
    ensures
        counts_so_far(m, group_by, a, passed, t, g, 0) == 0,
    decreases g,
{
    if g > 0 {
        lemma_no_rows(m, group_by, a, passed, t, g - 1);
    }
}

proof fn lemma_counts_of_groups(
    m: StoreModel,
    group_by: Seq<Seq<char>>,
    aggs: Seq<ColumnAggModel>,
    passed: Seq<bool>,
    t: Totals,
    j: int,
    g: int,
    n: int,
)
    requires
        0 <= j < aggs.len(),
        0 <= g <= t.len(),
        forall|i: int|
            0 <= i < t.len() ==> (#[trigger] t[i]).1 == Seq::new(
                aggs.len(),
                |q: int| group_total(m, group_by, aggs[q], passed, t[i].0, n),
            ),
    ensures
        counts_of_groups(t.take(g), j) == counts_so_far(m, group_by, aggs[j], passed, t, g, n),
    decreases g,
{
    if g > 0 {
        lemma_counts_of_groups(m, group_by, aggs, passed, t, j, g - 1, n);
        assert(t.take(g).drop_last() =~= t.take(g - 1));
        assert(t.take(g).last() == t[g - 1]);
    }
}

/// Counting the rows of every group counts every row once: the counts add up to the
/// rows that count, which without a test are the live ones, and every such row's key
/// is a group.
pub proof fn group_counts_add_up_to_the_rows(
    m: StoreModel,
    group_by: Seq<Seq<char>>,
    aggs: Seq<ColumnAggModel>,
    passed: Seq<bool>,
    t: Totals,
    j: int,
)
    requires
        are_totals(m, group_by, aggs, passed, m.ids.len() as int, t),
        0 <= j < aggs.len(),
        aggs[j].counts_rows,
    ensures
        counts_of_groups(t, j) == counted_rows(m, passed, m.ids.len() as int),
        forall|row: int|
            0 <= row < m.ids.len() && #[trigger] counts(m, passed, row) ==> has_group(
                t,
                row_key(m, group_by, row),
            ),
        (forall|row: int| 0 <= row < m.ids.len() ==> #[trigger] passed[row]) ==> counts_of_groups(
            t,
            j,
        ) == live_spots(m, m.ids.len() as int).len(),
{
    let n = m.ids.len() as int;
    assert(t.take(t.len() as int) =~= t);
    lemma_counts_of_groups(m, group_by, aggs, passed, t, j, t.len() as int, n);
    lemma_counts_so_far(m, group_by, aggs[j], passed, t, n, n);
    assert forall|row: int| 0 <= row < n && #[trigger] counts(m, passed, row) implies has_group(
        t,
        row_key(m, group_by, row),
    ) by {
        assert(group_seen(m, group_by, passed, row_key(m, group_by, row), n));
    }
    if forall|row: int| 0 <= row < n ==> #[trigger] passed[row] {
        lemma_live_counted(m, passed, n);
    }
}

proof fn lemma_live_counted(m: StoreModel, passed: Seq<bool>, n: int)
    requires
        0 <= n <= m.ids.len(),
        forall|row: int| 0 <= row < m.ids.len() ==> #[trigger] passed[row],
    ensures
        counted_rows(m, passed, n) == live_spots(m, n).len(),
    decreases n,
{
    if n > 0 {
        lemma_live_counted(m, passed, n - 1);
        assert(passed[n - 1]);
    }
}

// -- any order ------------------------------------------------------------------------

/// What a group comes to, of which the order of its records is no part: how many
/// values and numbers, the least and the greatest, and what the whole numbers add up
/// to.
#[verifier::ext_equal]
pub struct Summary {
    pub count: nat,
    pub numbers: nat,
    pub min: Option<ValueModel>,
    pub max: Option<ValueModel>,
    pub sum: int,
    pub size: nat,
    pub exact: bool,
}

/// A summary with one value more.
pub open spec fn summed(s: Summary, counts_rows: bool, v: Option<ValueModel>) -> Summary {
    if counts_rows {
        Summary { count: s.count + 1, ..s }
    } else {
        match v {
            None => s,
            Some(ValueModel::Null) => s,
            Some(v) => Summary {
                count: s.count + 1,
                numbers: s.numbers + if number(v) is Some {
                    1nat
                } else {
                    0
                },
                min: match s.min {
                    Some(m) => if value_before(v, m) {
                        Some(v)
                    } else {
                        Some(m)
                    },
                    None => Some(v),
                },
                max: match s.max {
                    Some(m) => if value_before(m, v) {
                        Some(v)
                    } else {
                        Some(m)
                    },
                    None => Some(v),
                },
                sum: s.sum + match number(v) {
                    Some(NumberModel::Exact(n)) => n,
                    _ => 0,
                },
                size: s.size + match number(v) {
                    Some(NumberModel::Exact(n)) => magnitude(n),
                    _ => 0,
                },
                exact: s.exact && !(number(v) matches Some(NumberModel::Rough)),
            },
        }
    }
}

/// The summary of a group of records.
pub open spec fn summary(rs: Seq<RecordModel>, q: Asking, a: ColumnAggModel, key: Seq<ValueModel>)
    -> Summary
    decreases rs.len(),
{
    if rs.len() == 0 {
        Summary { count: 0, numbers: 0, min: None, max: None, sum: 0, size: 0, exact: true }
    } else {
        let before = summary(rs.drop_last(), q, a, key);
        if belongs(q, key, rs.last()) {
            summed(before, a.counts_rows, taken_from(a, rs.last()))
        } else {
            before
        }
    }
}

/// Whether adding up a group's numbers never rounds, in whatever order.
pub open spec fn adds_exactly(s: Summary) -> bool {
    s.exact && s.size < EXACT_INTEGER_LIMIT
}

proof fn lemma_summed_either_way(
    s: Summary,
    counts_rows: bool,
    v: Option<ValueModel>,
    w: Option<ValueModel>,
)
    ensures
        summed(summed(s, counts_rows, v), counts_rows, w) == summed(
            summed(s, counts_rows, w),
            counts_rows,
            v,
        ),
{
    if let (Some(x), Some(y)) = (v, w) {
        lemma_value_before_total(x, y);
        if let Some(m) = s.min {
            lemma_value_before_total(x, m);
            lemma_value_before_total(y, m);
            if value_before(x, y) && value_before(y, m) {
                lemma_value_before_transitive(x, y, m);
            }
            if value_before(y, x) && value_before(x, m) {
                lemma_value_before_transitive(y, x, m);
            }
        }
        if let Some(m) = s.max {
            lemma_value_before_total(x, m);
            lemma_value_before_total(y, m);
            if value_before(m, x) && value_before(x, y) {
                lemma_value_before_transitive(m, x, y);
            }
            if value_before(m, y) && value_before(y, x) {
                lemma_value_before_transitive(m, y, x);
            }
        }
    }
    assert(summed(summed(s, counts_rows, v), counts_rows, w) =~= summed(
        summed(s, counts_rows, w),
        counts_rows,
        v,
    ));
}

proof fn lemma_summary_without(
    rs: Seq<RecordModel>,
    q: Asking,
    a: ColumnAggModel,
    key: Seq<ValueModel>,
    j: int,
)
    requires
        0 <= j < rs.len(),
    ensures
        summary(rs, q, a, key) == if belongs(q, key, rs[j]) {
            summed(summary(rs.remove(j), q, a, key), a.counts_rows, taken_from(a, rs[j]))
        } else {
            summary(rs.remove(j), q, a, key)
        },
    decreases rs.len(),
{
    if j == rs.len() - 1 {
        assert(rs.remove(j) =~= rs.drop_last());
    } else {
        let rest = rs.drop_last();
        lemma_summary_without(rest, q, a, key, j);
        assert(rs.remove(j).drop_last() =~= rest.remove(j));
        assert(rs.remove(j).last() == rs.last());
        lemma_summed_either_way(
            summary(rest.remove(j), q, a, key),
            a.counts_rows,
            taken_from(a, rs[j]),
            taken_from(a, rs.last()),
        );
    }
}

proof fn lemma_summary_of_any_order(
    rs: Seq<RecordModel>,
    others: Seq<RecordModel>,
    q: Asking,
    a: ColumnAggModel,
    key: Seq<ValueModel>,
)
    requires
        rs.to_multiset() == others.to_multiset(),
    ensures
        summary(rs, q, a, key) == summary(others, q, a, key),
        group_among(rs, q, key) == group_among(others, q, key),
    decreases rs.len(),
{
    rs.to_multiset_ensures();
    others.to_multiset_ensures();
    if group_among(rs, q, key) {
        let k = choose|k: int| 0 <= k < rs.len() && belongs(q, key, #[trigger] rs[k]);
        assert(rs.contains(rs[k]));
        assert(rs.to_multiset().count(rs[k]) > 0);
        assert(others.contains(rs[k]));
        let i = choose|i: int| 0 <= i < others.len() && others[i] == rs[k];
        assert(belongs(q, key, others[i]));
    }
    if group_among(others, q, key) {
        let k = choose|k: int| 0 <= k < others.len() && belongs(q, key, #[trigger] others[k]);
        assert(others.contains(others[k]));
        assert(others.to_multiset().count(others[k]) > 0);
        assert(rs.contains(others[k]));
        let i = choose|i: int| 0 <= i < rs.len() && rs[i] == others[k];
        assert(belongs(q, key, rs[i]));
    }
    if rs.len() > 0 {
        let r = rs.last();
        assert(rs.contains(r));
        assert(rs.to_multiset().count(r) > 0);
        assert(others.contains(r));
        let j = choose|j: int| 0 <= j < others.len() && others[j] == r;
        assert(rs.remove(rs.len() - 1) =~= rs.drop_last());
        assert(rs.drop_last().to_multiset() =~= others.remove(j).to_multiset());
        lemma_summary_of_any_order(rs.drop_last(), others.remove(j), q, a, key);
        lemma_summary_without(others, q, a, key, j);
    }
}

pub proof fn lemma_total_and_summary(
    rs: Seq<RecordModel>,
    q: Asking,
    a: ColumnAggModel,
    key: Seq<ValueModel>,
)
    ensures
        ({
            let t = record_total(rs, q, a, key);
            let s = summary(rs, q, a, key);
            &&& t.count == s.count
            &&& t.numbers == s.numbers
            &&& t.saw_value == (s.numbers > 0)
            &&& t.min == s.min
            &&& t.max == s.max
            &&& magnitude(s.sum) <= s.size
            &&& adds_exactly(s) ==> t.whole == s.sum && t.rest.len() == 0
        }),
    decreases rs.len(),
{
    if rs.len() > 0 {
        lemma_total_and_summary(rs.drop_last(), q, a, key);
    }
}

pub proof fn lemma_same_groups(a: Totals, b: Totals)
    requires
        groups_ordered(a),
        groups_ordered(b),
        forall|key: Seq<ValueModel>| #[trigger] has_group(a, key) <==> has_group(b, key),
    ensures
        a.len() == b.len(),
        forall|i: int| 0 <= i < a.len() ==> (#[trigger] a[i]).0 == b[i].0,
    decreases a.len(),
{
    if a.len() == 0 {
        if b.len() > 0 {
            assert(has_group(b, b[0].0));
            assert(!has_group(a, b[0].0));
        }
    } else {
        let x = a.drop_last();
        let y = b.drop_last();
        assert(has_group(a, a.last().0)) by {
            assert(a[a.len() - 1].0 == a.last().0);
        }
        assert(has_group(b, a.last().0));
        let j = choose|j: int| 0 <= j < b.len() && (#[trigger] b[j]).0 == a.last().0;
        assert(has_group(b, b.last().0)) by {
            assert(b[b.len() - 1].0 == b.last().0);
        }
        assert(has_group(a, b.last().0));
        let i = choose|i: int| 0 <= i < a.len() && (#[trigger] a[i]).0 == b.last().0;
        lemma_list_before_total(a.last().0, b.last().0);
        if i < a.len() - 1 {
            assert(list_before(a[i].0, a[a.len() - 1].0));
        }
        if j < b.len() - 1 {
            assert(list_before(b[j].0, b[b.len() - 1].0));
        }
        assert(a.last().0 == b.last().0);
        assert forall|p: int, q: int|
            #![trigger x[p], x[q]]
            0 <= p < q < x.len() implies list_before(x[p].0, x[q].0) by {
            assert(x[p] == a[p] && x[q] == a[q]);
        }
        assert forall|p: int, q: int|
            #![trigger y[p], y[q]]
            0 <= p < q < y.len() implies list_before(y[p].0, y[q].0) by {
            assert(y[p] == b[p] && y[q] == b[q]);
        }
        assert forall|key: Seq<ValueModel>| #[trigger] has_group(x, key) <==> has_group(y, key) by {
            lemma_shorter(a, key);
            lemma_shorter(b, key);
            assert(has_group(a, key) <==> has_group(b, key));
        }
        lemma_same_groups(x, y);
        assert forall|n: int| 0 <= n < a.len() implies (#[trigger] a[n]).0 == b[n].0 by {
            if n < a.len() - 1 {
                assert(x[n] == a[n] && y[n] == b[n]);
            }
        }
    }
}

proof fn lemma_shorter(a: Totals, key: Seq<ValueModel>)
    requires
        a.len() > 0,
        groups_ordered(a),
    ensures
        has_group(a.drop_last(), key) == (has_group(a, key) && key != a.last().0),
{
    let x = a.drop_last();
    if has_group(x, key) {
        let i = choose|i: int| 0 <= i < x.len() && (#[trigger] x[i]).0 == key;
        assert(a[i].0 == key);
        assert(list_before(a[i].0, a[a.len() - 1].0));
        lemma_list_before_total(a[i].0, a[a.len() - 1].0);
    }
    if has_group(a, key) && key != a.last().0 {
        let i = choose|i: int| 0 <= i < a.len() && (#[trigger] a[i]).0 == key;
        assert(x[i].0 == key);
    }
}

/// Whether the sums and means of an aggregate over records never round.
pub open spec fn sums_exactly(rs: Seq<RecordModel>, q: Asking, aggs: Seq<AggModel>) -> bool {
    forall|j: int, key: Seq<ValueModel>|
        0 <= j < aggs.len() && (aggs[j].kind == AggKind::Sum || aggs[j].kind == AggKind::Avg)
            ==> adds_exactly(#[trigger] summary(rs, q, asked_of_columns(aggs[j]), key))
}

/// The same records have one answer, in whatever order they are folded: so long as
/// no sum or mean is asked for that rounds.
pub proof fn the_same_records_have_one_answer(
    rs: Seq<RecordModel>,
    others: Seq<RecordModel>,
    q: Asking,
    aggs: Seq<AggModel>,
    x: Seq<(u64, ColumnCells)>,
    y: Seq<(u64, ColumnCells)>,
)
    requires
        rs.to_multiset() == others.to_multiset(),
        sums_exactly(rs, q, aggs),
        folded_over(rs, q, aggs, x),
        folded_over(others, q, aggs, y),
    ensures
        x == y,
{
    let a = choose|t: Totals| #[trigger]
        totals_of(rs, q, aggs, t) && x == rows_of_totals(q.group_by, aggs, t);
    let b = choose|t: Totals| #[trigger]
        totals_of(others, q, aggs, t) && y == rows_of_totals(q.group_by, aggs, t);
    let plain = ColumnAggModel { field: None, counts_rows: true };
    assert forall|key: Seq<ValueModel>| #[trigger] has_group(a, key) <==> has_group(b, key) by {
        lemma_summary_of_any_order(rs, others, q, plain, key);
        assert(has_group(b, key) <==> group_among(others, q, key));
    }
    lemma_same_groups(a, b);
    assert forall|i: int| 0 <= i < a.len() implies group_cells(
        q.group_by,
        aggs,
        (#[trigger] a[i]).0,
        a[i].1,
    ) == group_cells(q.group_by, aggs, b[i].0, b[i].1) by {
        let key = a[i].0;
        assert(b[i].0 == key);
        assert forall|j: int| 0 <= j < aggs.len() implies column_reported(
            aggs[j].kind,
            #[trigger] a[i].1[j],
        ) == column_reported(aggs[j].kind, b[i].1[j]) by {
            let g = asked_of_columns(aggs[j]);
            lemma_summary_of_any_order(rs, others, q, g, key);
            lemma_total_and_summary(rs, q, g, key);
            lemma_total_and_summary(others, q, g, key);
            assert(a[i].1[j] == record_total(rs, q, g, key));
            assert(b[i].1[j] == record_total(others, q, g, key));
            assert(aggs[j].kind == AggKind::Sum || aggs[j].kind == AggKind::Avg ==> adds_exactly(
                summary(rs, q, g, key),
            ));
            assert(adds_exactly(summary(rs, q, g, key)) ==> a[i].1[j].rest =~= b[i].1[j].rest);
        }
        assert(group_cells(q.group_by, aggs, key, a[i].1) =~= group_cells(
            q.group_by,
            aggs,
            key,
            b[i].1,
        ));
    }
    assert(x =~= y);
}

/// However the ids of some records are listed, the same records come of it.
pub proof fn lemma_listed_in_any_order(ids: Seq<u64>, others: Seq<u64>, t: Records)
    requires
        enumerates(ids, t),
        enumerates(others, t),
    ensures
        listed(ids, t).to_multiset() == listed(others, t).to_multiset(),
{
    ids.lemma_multiset_has_no_duplicates();
    others.lemma_multiset_has_no_duplicates();
    ids.to_multiset_ensures();
    others.to_multiset_ensures();
    assert forall|id: u64| ids.to_multiset().count(id) == others.to_multiset().count(id) by {
        assert(ids.contains(id) <==> others.contains(id));
        assert(ids.to_multiset().contains(id) <==> ids.contains(id));
        assert(others.to_multiset().contains(id) <==> others.contains(id));
    }
    assert(ids.to_multiset() =~= others.to_multiset());
    lemma_listed_alike(ids, others, t);
}

proof fn lemma_listed_alike(ids: Seq<u64>, others: Seq<u64>, t: Records)
    requires
        ids.to_multiset() == others.to_multiset(),
    ensures
        listed(ids, t).to_multiset() == listed(others, t).to_multiset(),
    decreases ids.len(),
{
    ids.to_multiset_ensures();
    others.to_multiset_ensures();
    if ids.len() > 0 {
        let id = ids.last();
        assert(ids.contains(id));
        assert(ids.to_multiset().count(id) > 0);
        assert(others.contains(id));
        let j = choose|j: int| 0 <= j < others.len() && others[j] == id;
        let (x, y) = (ids.drop_last(), others.remove(j));
        assert(ids.remove(ids.len() - 1) =~= x);
        assert(x.to_multiset() =~= y.to_multiset());
        lemma_listed_alike(x, y, t);
        let (u, v) = (listed(ids, t), listed(others, t));
        assert(u.remove(u.len() - 1) =~= listed(x, t));
        assert(v.remove(j) =~= listed(y, t));
        u.to_multiset_ensures();
        v.to_multiset_ensures();
        assert(u.to_multiset() =~= listed(x, t).to_multiset().insert(t[id]));
        assert(v.to_multiset() =~= listed(y, t).to_multiset().insert(t[id]));
    } else {
        assert(others.len() == 0);
        assert(listed(ids, t) =~= listed(others, t));
    }
}

/// An aggregate answered from a copy is the answer of the records: folding them in any
/// order whatever, each once, gives the same rows.
pub proof fn a_columnar_aggregate_is_the_answer(
    m: StoreModel,
    t: Records,
    q: Asking,
    aggs: Seq<AggModel>,
    rows: Seq<(u64, ColumnCells)>,
    ids: Seq<u64>,
    folded: Seq<(u64, ColumnCells)>,
)
    requires
        columns_faithful(m, t),
        keeps_for(m, q.group_by, aggs, q.predicate),
        reads_only_its_fields(q.predicate, q.keeps),
        aggregated(m, q.group_by, aggs, q.predicate, q.keeps, rows),
        enumerates(ids, t),
        sums_exactly(listed(ids, t), q, aggs),
        folded_over(listed(ids, t), q, aggs, folded),
    ensures
        rows == folded,
{
    a_columnar_aggregate_is_of_the_records(m, t, q, aggs, rows);
    let own = choose|own: Seq<u64>| #[trigger] enumerates(own, t) && folded_over(
        listed(own, t),
        q,
        aggs,
        rows,
    );
    lemma_listed_in_any_order(ids, own, t);
    the_same_records_have_one_answer(listed(ids, t), listed(own, t), q, aggs, folded, rows);
}

// -- what an aggregate says ------------------------------------------------------------

/// The records a group is made of.
pub open spec fn members(rs: Seq<RecordModel>, q: Asking, key: Seq<ValueModel>) -> Seq<RecordModel> {
    rs.filter(
        |r: RecordModel|
            (q.predicate matches Some(p) ==> (q.keeps)(p, r)) && key.len() == q.group_by.len()
                && forall|g: int|
                #![trigger key[g]]
                0 <= g < key.len() ==> Some(key[g]) == field_of(r, q.group_by[g]) || (key[g] is Null
                    && field_of(r, q.group_by[g]) is None),
    )
}

/// The values of a field among records, nulls left out.
pub open spec fn values_of(rs: Seq<RecordModel>, field: Option<Seq<char>>) -> Seq<ValueModel>
    decreases rs.len(),
{
    if rs.len() == 0 || field is None {
        Seq::empty()
    } else {
        let before = values_of(rs.drop_last(), field);
        match field_of(rs.last(), field->Some_0) {
            None => before,
            Some(v) => if v is Null {
                before
            } else {
                before.push(v)
            },
        }
    }
}

/// The numbers among values.
pub open spec fn numbers_of(vs: Seq<ValueModel>) -> Seq<ValueModel> {
    vs.filter(|v: ValueModel| v is I64 || v is U64 || v is F64)
}

/// What whole numbers add up to.
pub open spec fn added_up(vs: Seq<ValueModel>) -> int
    decreases vs.len(),
{
    if vs.len() == 0 {
        0
    } else {
        added_up(vs.drop_last()) + match number(vs.last()) {
            Some(NumberModel::Exact(n)) => n,
            _ => 0,
        }
    }
}

/// Whether numbers are summed as far as that is exact: the first of them are whole and
/// come to `whole`, and the others are left in their order, the first of those left being
/// one that is not whole or that would take the sum past what is exact.
pub open spec fn summed_up(vs: Seq<ValueModel>, whole: int, rest: Seq<ValueModel>) -> bool {
    let k = vs.len() - rest.len();
    &&& k >= 0
    &&& rest == vs.skip(k)
    &&& whole == added_up(vs.take(k))
    &&& -EXACT_INTEGER_LIMIT < whole < EXACT_INTEGER_LIMIT
    &&& forall|i: int|
        0 <= i < k ==> (number(#[trigger] vs[i]) matches Some(NumberModel::Exact(_)))
    &&& rest.len() > 0 ==> (number(rest[0]) matches Some(NumberModel::Exact(n)) ==> !(
    -EXACT_INTEGER_LIMIT < whole + n < EXACT_INTEGER_LIMIT))
}

/// Whether a value is among others and none of them sorts before it.
pub open spec fn is_least(v: ValueModel, vs: Seq<ValueModel>) -> bool {
    vs.contains(v) && forall|i: int| 0 <= i < vs.len() ==> !value_before(#[trigger] vs[i], v)
}

/// Whether a value is among others and it sorts before none of them.
pub open spec fn is_greatest(v: ValueModel, vs: Seq<ValueModel>) -> bool {
    vs.contains(v) && forall|i: int| 0 <= i < vs.len() ==> !value_before(v, #[trigger] vs[i])
}

/// What an aggregate over a group of records has to say. Rows are counted where no field
/// is named, and else values that are not null. A sum and a mean are of the numbers, the
/// least and the greatest of all values; of nothing they are null.
pub open spec fn says_of(rs: Seq<RecordModel>, a: AggModel, said: ColumnCellModel) -> bool {
    let vs = values_of(rs, a.field);
    let ns = numbers_of(vs);
    let null = ColumnCellModel::Value(ValueModel::Null);
    match a.kind {
        AggKind::Count => said == ColumnCellModel::Value(
            ValueModel::U64(
                (if a.field is None {
                    rs.len()
                } else {
                    vs.len()
                }) as u64,
            ),
        ),
        AggKind::Sum => if ns.len() == 0 {
            said == null
        } else {
            said matches ColumnCellModel::Sum { whole, rest } && summed_up(ns, whole, rest)
        },
        AggKind::Avg => if ns.len() == 0 {
            said == null
        } else {
            said matches ColumnCellModel::Mean { whole, rest, count } && summed_up(ns, whole, rest)
                && count == ns.len()
        },
        AggKind::Min => if vs.len() == 0 {
            said == null
        } else {
            said matches ColumnCellModel::Value(v) && is_least(v, vs)
        },
        AggKind::Max => if vs.len() == 0 {
            said == null
        } else {
            said matches ColumnCellModel::Value(v) && is_greatest(v, vs)
        },
    }
}

/// Whether what is accumulated is of records.
spec fn accumulated_of(rs: Seq<RecordModel>, a: ColumnAggModel, acc: AccumModel) -> bool {
    let vs = values_of(rs, a.field);
    let ns = numbers_of(vs);
    if a.counts_rows {
        acc == AccumModel { count: rs.len(), ..nothing_seen() }
    } else {
        &&& acc.count == vs.len()
        &&& acc.numbers == ns.len()
        &&& acc.saw_value == (ns.len() > 0)
        &&& summed_up(ns, acc.whole, acc.rest)
        &&& match acc.min {
            None => vs.len() == 0,
            Some(v) => is_least(v, vs),
        }
        &&& match acc.max {
            None => vs.len() == 0,
            Some(v) => is_greatest(v, vs),
        }
    }
}

proof fn lemma_least(vs: Seq<ValueModel>, was: Option<ValueModel>, v: ValueModel)
    requires
        match was {
            None => vs.len() == 0,
            Some(m) => is_least(m, vs),
        },
    ensures
        is_least(
            match was {
                Some(m) => if value_before(v, m) {
                    v
                } else {
                    m
                },
                None => v,
            },
            vs.push(v),
        ),
{
    let all = vs.push(v);
    let least = match was {
        Some(m) => if value_before(v, m) {
            v
        } else {
            m
        },
        None => v,
    };
    assert(all[vs.len() as int] == v);
    lemma_value_before_total(v, v);
    if let Some(m) = was {
        lemma_value_before_total(v, m);
        let j = choose|j: int| 0 <= j < vs.len() && vs[j] == m;
        assert(all[j] == m);
    }
    assert forall|i: int| 0 <= i < all.len() implies !value_before(#[trigger] all[i], least) by {
        if i < vs.len() {
            let m = was->Some_0;
            assert(all[i] == vs[i]);
            assert(!value_before(vs[i], m));
            if value_before(v, m) && value_before(all[i], v) {
                lemma_value_before_transitive(all[i], v, m);
            }
        }
    }
}

proof fn lemma_greatest(vs: Seq<ValueModel>, was: Option<ValueModel>, v: ValueModel)
    requires
        match was {
            None => vs.len() == 0,
            Some(m) => is_greatest(m, vs),
        },
    ensures
        is_greatest(
            match was {
                Some(m) => if value_before(m, v) {
                    v
                } else {
                    m
                },
                None => v,
            },
            vs.push(v),
        ),
{
    let all = vs.push(v);
    let most = match was {
        Some(m) => if value_before(m, v) {
            v
        } else {
            m
        },
        None => v,
    };
    assert(all[vs.len() as int] == v);
    lemma_value_before_total(v, v);
    if let Some(m) = was {
        lemma_value_before_total(v, m);
        let j = choose|j: int| 0 <= j < vs.len() && vs[j] == m;
        assert(all[j] == m);
    }
    assert forall|i: int| 0 <= i < all.len() implies !value_before(most, #[trigger] all[i]) by {
        if i < vs.len() {
            let m = was->Some_0;
            assert(all[i] == vs[i]);
            assert(!value_before(m, vs[i]));
            if value_before(m, v) && value_before(v, all[i]) {
                lemma_value_before_transitive(m, v, all[i]);
            }
        }
    }
}

proof fn lemma_one_more_number(ns: Seq<ValueModel>, whole: int, rest: Seq<ValueModel>, v: ValueModel)
    requires
        summed_up(ns, whole, rest),
        number(v) is Some,
    ensures
        match number(v) {
            Some(NumberModel::Exact(n)) => if rest.len() == 0 && -EXACT_INTEGER_LIMIT < whole + n
                < EXACT_INTEGER_LIMIT {
                summed_up(ns.push(v), whole + n, rest)
            } else {
                summed_up(ns.push(v), whole, rest.push(v))
            },
            _ => summed_up(ns.push(v), whole, rest.push(v)),
        },
{
    let all = ns.push(v);
    let k = ns.len() - rest.len();
    if rest.len() == 0 {
        assert(ns.take(k) =~= ns);
        assert(all.take(k) =~= ns);
        assert(all.take(k + 1) =~= all);
        assert(all.drop_last() =~= ns);
        assert(all.skip(k) =~= rest.push(v));
        assert(all.skip(k + 1) =~= rest);
        assert forall|i: int| 0 <= i < k implies number(#[trigger] all[i]) matches Some(
            NumberModel::Exact(_),
        ) by {
            assert(all[i] == ns[i]);
        }
    } else {
        assert(all.take(k) =~= ns.take(k));
        assert(all.skip(k) =~= rest.push(v));
        assert(rest.push(v)[0] == rest[0]);
        assert forall|i: int| 0 <= i < k implies number(#[trigger] all[i]) matches Some(
            NumberModel::Exact(_),
        ) by {
            assert(all[i] == ns[i]);
        }
    }
}

proof fn lemma_accumulated_of(rs: Seq<RecordModel>, a: ColumnAggModel, acc: AccumModel, r: RecordModel)
    requires
        accumulated_of(rs, a, acc),
    ensures
        accumulated_of(rs.push(r), a, accumulated(acc, a.counts_rows, taken_from(a, r))),
{
    reveal(Seq::filter);
    let all = rs.push(r);
    assert(all.drop_last() =~= rs);
    let vs = values_of(rs, a.field);
    if !a.counts_rows && a.field is Some {
        if let Some(v) = field_of(r, a.field->Some_0) {
            if !(v is Null) {
                assert(values_of(all, a.field) == vs.push(v));
                assert(vs.push(v).drop_last() =~= vs);
                lemma_least(vs, acc.min, v);
                lemma_greatest(vs, acc.max, v);
                if number(v) is Some {
                    assert(numbers_of(vs.push(v)) == numbers_of(vs).push(v));
                    lemma_one_more_number(numbers_of(vs), acc.whole, acc.rest, v);
                } else {
                    assert(numbers_of(vs.push(v)) == numbers_of(vs));
                }
            }
        }
    }
}

proof fn lemma_members(rs: Seq<RecordModel>, q: Asking, key: Seq<ValueModel>)
    ensures
        rs.len() > 0 ==> members(rs, q, key) == if belongs(q, key, rs.last()) {
            members(rs.drop_last(), q, key).push(rs.last())
        } else {
            members(rs.drop_last(), q, key)
        },
{
    reveal(Seq::filter);
    if rs.len() > 0 {
        let r = rs.last();
        let own = record_key(q.group_by, r);
        let alike = key.len() == q.group_by.len() && forall|g: int|
            #![trigger key[g]]
            0 <= g < key.len() ==> Some(key[g]) == field_of(r, q.group_by[g]) || (key[g] is Null
                && field_of(r, q.group_by[g]) is None);
        if alike {
            assert forall|g: int| 0 <= g < key.len() implies own[g] == key[g] by {
                assert(key[g] == key[g]);
            }
            assert(own =~= key);
        }
    }
}

proof fn lemma_record_total(rs: Seq<RecordModel>, q: Asking, a: ColumnAggModel, key: Seq<ValueModel>)
    ensures
        accumulated_of(members(rs, q, key), a, record_total(rs, q, a, key)),
    decreases rs.len(),
{
    reveal(Seq::filter);
    if rs.len() > 0 {
        lemma_record_total(rs.drop_last(), q, a, key);
        lemma_members(rs, q, key);
        if belongs(q, key, rs.last()) {
            lemma_accumulated_of(
                members(rs.drop_last(), q, key),
                a,
                record_total(rs.drop_last(), q, a, key),
                rs.last(),
            );
        }
    } else {
        assert(numbers_of(values_of(rs, a.field)) =~= Seq::empty());
        assert(rs.filter(|r: RecordModel| true) =~= Seq::empty());
        assert(members(rs, q, key) =~= Seq::empty());
        let none = Seq::<ValueModel>::empty();
        assert(none.take(0) =~= none);
        assert(none.skip(0) =~= none);
    }
}

/// What every row of an aggregate over a copy says is what its group of the records
/// holds. `ids` are those of the records, each once. A row is numbered by its place and
/// begins with what its group is of; there is one for every group a record belongs to,
/// in the order of the groups; and each aggregate follows under its name.
pub proof fn an_aggregate_says_what_its_groups_hold(
    m: StoreModel,
    t: Records,
    q: Asking,
    aggs: Seq<AggModel>,
    rows: Seq<(u64, ColumnCells)>,
) -> (r: (Seq<u64>, Seq<Seq<ValueModel>>))
    requires
        columns_faithful(m, t),
        keeps_for(m, q.group_by, aggs, q.predicate),
        reads_only_its_fields(q.predicate, q.keeps),
        aggregated(m, q.group_by, aggs, q.predicate, q.keeps, rows),
    ensures
        r.0.no_duplicates(),
        forall|id: u64| #[trigger] r.0.contains(id) <==> t.dom().contains(id),
        ({
            let (ids, keys) = r;
            let rs = ids.map_values(|id: u64| t[id]);
            let n = q.group_by.len() as int;
            &&& rows.len() == keys.len()
            &&& forall|i: int, j: int|
                #![trigger keys[i], keys[j]]
                0 <= i < j < keys.len() ==> list_before(keys[i], keys[j])
            &&& forall|key: Seq<ValueModel>|
                keys.contains(key) <==> (#[trigger] members(rs, q, key)).len() > 0
            &&& forall|i: int|
                #![trigger rows[i]]
                0 <= i < rows.len() ==> rows[i].0 == i as u64 && rows[i].1.len() == n + aggs.len()
            &&& forall|i: int, g: int|
                #![trigger rows[i].1[g]]
                0 <= i < rows.len() && 0 <= g < n ==> rows[i].1[g] == (
                    q.group_by[g],
                    ColumnCellModel::Value(keys[i][g]),
                )
            &&& forall|i: int, j: int|
                #![trigger rows[i], aggs[j]]
                0 <= i < rows.len() && 0 <= j < aggs.len() ==> rows[i].1[n + j].0 == aggs[j].output
                    && says_of(members(rs, q, keys[i]), aggs[j], rows[i].1[n + j].1)
        }),
{
    a_columnar_aggregate_is_of_the_records(m, t, q, aggs, rows);
    let ids = choose|ids: Seq<u64>| #[trigger] enumerates(ids, t) && folded_over(
        listed(ids, t),
        q,
        aggs,
        rows,
    );
    let rs = listed(ids, t);
    assert(rs =~= ids.map_values(|id: u64| t[id]));
    let w = choose|w: Totals| #[trigger]
        totals_of(rs, q, aggs, w) && rows == rows_of_totals(q.group_by, aggs, w);
    let keys = w.map_values(|g: (Seq<ValueModel>, Seq<AccumModel>)| g.0);
    let n = q.group_by.len() as int;
    assert forall|key: Seq<ValueModel>|
        keys.contains(key) <==> (#[trigger] members(rs, q, key)).len() > 0 by {
        lemma_group_members(rs, q, key);
        if keys.contains(key) {
            let i = choose|i: int| 0 <= i < keys.len() && keys[i] == key;
            assert(w[i].0 == key);
            assert(has_group(w, key));
        }
        if has_group(w, key) {
            let i = choose|i: int| 0 <= i < w.len() && (#[trigger] w[i]).0 == key;
            assert(keys[i] == key);
        }
    }
    assert forall|i: int, j: int|
        #![trigger rows[i], aggs[j]]
        0 <= i < rows.len() && 0 <= j < aggs.len() implies rows[i].1[n + j].0 == aggs[j].output
        && says_of(members(rs, q, keys[i]), aggs[j], rows[i].1[n + j].1) by {
        let a = asked_of_columns(aggs[j]);
        assert(rows[i].1 == group_cells(q.group_by, aggs, w[i].0, w[i].1));
        assert(w[i].1[j] == record_total(rs, q, a, keys[i]));
        lemma_record_total(rs, q, a, keys[i]);
    }
    (ids, keys)
}

proof fn lemma_group_members(rs: Seq<RecordModel>, q: Asking, key: Seq<ValueModel>)
    ensures
        group_among(rs, q, key) <==> members(rs, q, key).len() > 0,
    decreases rs.len(),
{
    reveal(Seq::filter);
    if rs.len() > 0 {
        let rest = rs.drop_last();
        lemma_group_members(rest, q, key);
        lemma_members(rs, q, key);
        if group_among(rs, q, key) {
            let k = choose|k: int| 0 <= k < rs.len() && belongs(q, key, #[trigger] rs[k]);
            if k < rest.len() {
                assert(belongs(q, key, rest[k]));
            }
        }
        if group_among(rest, q, key) {
            let k = choose|k: int| 0 <= k < rest.len() && belongs(q, key, #[trigger] rest[k]);
            assert(belongs(q, key, rs[k]));
        }
        if belongs(q, key, rs.last()) {
            assert(belongs(q, key, rs[rs.len() - 1]));
        }
    }
}

} // verus!
