//! However records are kept, a query has one answer.
//!
//! A view answers an aggregate with what folding the records gives, and so does a
//! columnar copy. So two databases that hold the same records, whatever each has
//! derived from them, answer alike.

use vstd::prelude::*;
use crate::assoc::{find, lemma_find_at, lemma_find_some};
use crate::columnar::{
    adds_exactly, belongs, folded_over, group_among, lemma_listed_in_any_order,
    lemma_same_groups, lemma_total_and_summary, record_key, record_total, summary, sums_exactly,
    totals_of, Asking,
};
use crate::column::{groups_ordered, has_group, AccumModel, Totals};
use crate::database::{epoch_of, Database};
use crate::derived::{agrees_with, enumerates, listed, view_faithful};
use crate::index::{
    faithful, ids_between, ids_under, index_ok, key_under, Entry, IndexModel, Keeps, LimitModel,
    Records,
};
use crate::indexing::lemma_same_entries;
use crate::matview::{
    agrees, answer_rows, count_in, definition, first_of, group_key, keys_in_order,
    lemma_view_in_order, maintainable, reported, rows_in, sum_in, view_for, CellModel, Cells, Def,
    GroupModel, Groups, MaterializedView,
};
use crate::number::float_of;
use crate::plan::{collection_of, AggKind, OpModel};
use crate::queries::{honest, stage, Home, QueryMode, Stage, Truth};
use crate::record::RecordModel;
use crate::structures::{
    asked_of_columns, column_reported, rows_of_totals, ColumnCellModel, ColumnCells,
};
use crate::value::{lemma_list_before_total, list_before, ValueModel};

verus! {

// -- views and folds ------------------------------------------------------------------

/// Whether a view's cell and a fold's say the same. A fold hands its sums out as the
/// numbers still to be added, of which there are none here.
pub open spec fn cells_alike(a: CellModel, b: ColumnCellModel) -> bool {
    match (a, b) {
        (CellModel::Value(v), ColumnCellModel::Value(w)) => v == w,
        (CellModel::Value(v), ColumnCellModel::Sum { whole, rest }) => rest.len() == 0 && v
            == ValueModel::F64(float_of(whole)),
        (CellModel::Mean { sum, count }, ColumnCellModel::Mean { whole, rest, count: n }) => {
            rest.len() == 0 && sum == whole && count == n
        },
        _ => false,
    }
}

/// Whether a view's row and a fold's say the same.
pub open spec fn rows_alike(a: (u64, Cells), b: (u64, ColumnCells)) -> bool {
    &&& a.0 == b.0
    &&& a.1.len() == b.1.len()
    &&& forall|i: int|
        0 <= i < a.1.len() ==> (#[trigger] a.1[i]).0 == b.1[i].0 && cells_alike(a.1[i].1, b.1[i].1)
}

/// Whether two answers say the same, row for row.
pub open spec fn answers_alike(a: Seq<(u64, Cells)>, b: Seq<(u64, ColumnCells)>) -> bool {
    a.len() == b.len() && forall|i: int| 0 <= i < a.len() ==> rows_alike(#[trigger] a[i], b[i])
}

/// What a view asks: everything, in its groups.
pub open spec fn asking(d: Def, keeps: Keeps) -> Asking {
    Asking { group_by: d.group_by, predicate: None, keeps }
}

proof fn lemma_tallies_and_summary(
    d: Def,
    keeps: Keeps,
    rs: Seq<RecordModel>,
    key: Seq<ValueModel>,
    i: int,
)
    requires
        0 <= i < d.aggs.len(),
        d.aggs[i].kind == AggKind::Count || d.aggs[i].kind == AggKind::Sum || d.aggs[i].kind
            == AggKind::Avg,
    ensures
        ({
            let s = summary(rs, asking(d, keeps), asked_of_columns(d.aggs[i]), key);
            &&& d.aggs[i].kind == AggKind::Count ==> count_in(d, rs, key, i) == s.count
            &&& d.aggs[i].kind != AggKind::Count ==> count_in(d, rs, key, i) == s.numbers && sum_in(
                d,
                rs,
                key,
                i,
            ) == s.sum
        }),
    decreases rs.len(),
{
    if rs.len() > 0 {
        lemma_tallies_and_summary(d, keeps, rs.drop_last(), key, i);
        assert(group_key(d.group_by, rs.last()) =~= record_key(d.group_by, rs.last()));
    }
}

proof fn lemma_rows_and_groups(
    d: Def,
    keeps: Keeps,
    rs: Seq<RecordModel>,
    key: Seq<ValueModel>,
)
    ensures
        rows_in(d, rs, key) > 0 <==> group_among(rs, asking(d, keeps), key),
    decreases rs.len(),
{
    let q = asking(d, keeps);
    if rs.len() > 0 {
        let rest = rs.drop_last();
        lemma_rows_and_groups(d, keeps, rest, key);
        assert(group_key(d.group_by, rs.last()) =~= record_key(d.group_by, rs.last()));
        if group_among(rest, q, key) {
            let k = choose|k: int| 0 <= k < rest.len() && belongs(q, key, #[trigger] rest[k]);
            assert(belongs(q, key, rs[k]));
        }
        if group_among(rs, q, key) {
            let k = choose|k: int| 0 <= k < rs.len() && belongs(q, key, #[trigger] rs[k]);
            if k < rest.len() {
                assert(belongs(q, key, rest[k]));
            }
        }
        if group_key(d.group_by, rs.last()) == key {
            assert(belongs(q, key, rs[rs.len() - 1]));
        }
    }
}

proof fn lemma_same_keys(g: Groups, t: Totals)
    requires
        keys_in_order(g),
        groups_ordered(t),
        forall|key: Seq<ValueModel>| (#[trigger] find(g, key) is Some) == has_group(t, key),
    ensures
        g.len() == t.len(),
        forall|i: int| 0 <= i < g.len() ==> (#[trigger] g[i]).0 == t[i].0,
{
    let a = g.map_values(|e: (Seq<ValueModel>, GroupModel)| (
        e.0,
        Seq::<AccumModel>::empty(),
    ));
    assert forall|i: int, j: int|
        #![trigger a[i], a[j]]
        0 <= i < j < a.len() implies list_before(a[i].0, a[j].0) by {
        assert(list_before(g[i].0, g[j].0));
    }
    assert forall|key: Seq<ValueModel>| #[trigger] has_group(a, key) <==> has_group(t, key) by {
        if has_group(a, key) {
            let i = choose|i: int| 0 <= i < a.len() && (#[trigger] a[i]).0 == key;
            assert forall|j: int| 0 <= j < i implies (#[trigger] g[j]).0 != key by {
                assert(list_before(g[j].0, g[i].0));
                lemma_list_before_total(g[j].0, g[i].0);
            }
            assert(g[i].0 == key);
            lemma_find_at(g, key, i);
        }
        if find(g, key) is Some {
            let i = lemma_find_some(g, key);
            assert(a[i].0 == key);
        }
        assert((find(g, key) is Some) == has_group(t, key));
    }
    lemma_same_groups(a, t);
    assert forall|i: int| 0 <= i < g.len() implies (#[trigger] g[i]).0 == t[i].0 by {
        assert(a[i].0 == t[i].0);
    }
}

/// A view answers with what folding the records gives, in whatever order: the same
/// groups, and the same value in every cell. So does a columnar copy, and the two
/// cannot be told apart. A fold over no records has no group, where a view that does
/// not group has its one row; the caller of a fold supplies that row.
pub proof fn a_view_answers_as_the_records_do(
    v: MaterializedView,
    keeps: Keeps,
    rs: Seq<RecordModel>,
    rows: Seq<(u64, ColumnCells)>,
)
    requires
        v.wf(),
        v.exact(),
        v.follows(rs),
        maintainable(v.def().aggs),
        sums_exactly(rs, asking(v.def(), keeps), v.def().aggs),
        folded_over(rs, asking(v.def(), keeps), v.def().aggs, rows),
        v.def().group_by.len() > 0 || rs.len() > 0,
    ensures
        answers_alike(answer_rows(v.def(), v.groups()), rows),
{
    let d = v.def();
    let q = asking(d, keeps);
    let g = v.groups();
    lemma_view_in_order(v);
    let t = choose|t: Totals| #[trigger]
        totals_of(rs, q, d.aggs, t) && rows == rows_of_totals(q.group_by, d.aggs, t);
    assert forall|key: Seq<ValueModel>| (#[trigger] find(g, key) is Some) == has_group(t, key) by {
        assert(agrees(d, rs, key, find(g, key)));
        lemma_rows_and_groups(d, keeps, rs, key);
        assert(has_group(t, key) <==> group_among(rs, q, key));
    }
    lemma_same_keys(g, t);
    if g.len() == 0 && d.group_by.len() == 0 {
        let key = group_key(d.group_by, rs[0]);
        assert(key =~= record_key(d.group_by, rs[0]));
        assert(belongs(q, key, rs[0]));
        assert(group_among(rs, q, key));
        assert(has_group(t, key));
    }
    let answer = answer_rows(d, g);
    assert forall|i: int| 0 <= i < answer.len() implies rows_alike(#[trigger] answer[i], rows[i]) by {
        let key = g[i].0;
        lemma_find_at(g, key, i);
        assert(agrees(d, rs, key, find(g, key)));
        assert(t[i].0 == key);
        let (x, y) = (answer[i].1, rows[i].1);
        let w = d.group_by.len() as int;
        assert forall|n: int| 0 <= n < x.len() implies (#[trigger] x[n]).0 == y[n].0 && cells_alike(
            x[n].1,
            y[n].1,
        ) by {
            if n >= w {
                let j = n - w;
                let a = asked_of_columns(d.aggs[j]);
                assert(d.aggs[j].kind == AggKind::Count || d.aggs[j].kind == AggKind::Sum
                    || d.aggs[j].kind == AggKind::Avg);
                lemma_tallies_and_summary(d, keeps, rs, key, j);
                lemma_total_and_summary(rs, q, a, key);
                assert(t[i].1[j] == record_total(rs, q, a, key));
                assert(g[i].1.accs[j].count == count_in(d, rs, key, j));
                if d.aggs[j].kind != AggKind::Count {
                    assert(adds_exactly(summary(rs, q, a, key)));
                }
                assert(x[n] == (d.aggs[j].output, reported(d.aggs[j].kind, g[i].1.accs[j])));
                assert(y[n] == (d.aggs[j].output, column_reported(d.aggs[j].kind, t[i].1[j])));
            }
        }
    }
}

// -- two indexes ----------------------------------------------------------------------

/// Indexes of one shape that say what the same records say give the same ids in the same
/// order, of a key and of a range, in whatever order the records came.
pub proof fn two_indexes_answer_alike(
    a: IndexModel,
    b: IndexModel,
    keeps: Keeps,
    t: Records,
    key: ValueModel,
    lo: LimitModel,
    hi: LimitModel,
)
    requires
        index_ok(a),
        index_ok(b),
        a.shape == b.shape,
        faithful(a, keeps, t),
        faithful(b, keeps, t),
    ensures
        ids_under(a.entries, key) == ids_under(b.entries, key),
        ids_between(a.entries, lo, hi) == ids_between(b.entries, lo, hi),
{
    assert forall|e: Entry| #[trigger] a.entries.contains(e) <==> b.entries.contains(e) by {
        assert(a.entries.contains((e.0, e.1)) <==> key_under(a.shape, keeps, t, e.1) == Some(e.0));
        assert(b.entries.contains((e.0, e.1)) <==> key_under(b.shape, keeps, t, e.1) == Some(e.0));
    }
    lemma_same_entries(a.entries, b.entries);
}

// -- two databases --------------------------------------------------------------------

proof fn lemma_first_of(views: Seq<MaterializedView>, c: Seq<char>, d: Def)
    requires
        first_of(views, c, d) is Some,
    ensures
        exists|i: int|
            0 <= i < views.len() && #[trigger] views[i] == first_of(views, c, d)->Some_0,
        first_of(views, c, d)->Some_0.is_of(c, d),
    decreases views.len(),
{
    if !views[0].is_of(c, d) {
        let rest = views.drop_first();
        assert(first_of(views, c, d) == first_of(rest, c, d));
        lemma_first_of(rest, c, d);
        let i = choose|i: int|
            0 <= i < rest.len() && #[trigger] rest[i] == first_of(rest, c, d)->Some_0;
        assert(views[i + 1] == rest[i]);
    } else {
        assert(views[0] == first_of(views, c, d)->Some_0);
    }
}

pub proof fn lemma_view_of_records(db: Database, keeps: Keeps, t: Records, op: OpModel) -> (ids: Seq<
    u64,
>)
    requires
        db.wf(),
        agrees_with(db.derived, keeps, collection_of(op), t),
        view_for(db.derived.views.views(), op) is Some,
    ensures
        ({
            let v = view_for(db.derived.views.views(), op)->Some_0;
            &&& v.wf()
            &&& v.def() == definition(op)->Some_0.1
            &&& enumerates(ids, t)
            &&& v.follows(listed(ids, t))
        }),
{
    let views = db.derived.views.views();
    let (c, d) = definition(op)->Some_0;
    lemma_first_of(views, c, d);
    let v = view_for(views, op)->Some_0;
    let i = choose|i: int| 0 <= i < views.len() && #[trigger] views[i] == v;
    assert(views[i].wf());
    reveal_with_fuel(collection_of, 2);
    assert(c == collection_of(op));
    assert(view_faithful(views[i], t));
    choose|ids: Seq<u64>| #[trigger] enumerates(ids, t) && v.follows(listed(ids, t))
}

/// Two databases that hold the same records answer a query alike, whatever each has
/// derived from them and in whatever order: by a view or by a kept result the rows are
/// the same, and a record by its identity is looked for under the same id. `truth` is
/// what executing a query gives at each epoch of its collection; that executing it over
/// the same records gives the same rows is what the two have in common.
pub proof fn two_databases_answer_alike(
    a: Database,
    b: Database,
    keeps: Keeps,
    t: Records,
    op: OpModel,
    shape: u64,
    key: u64,
    mode: QueryMode,
    home: Home,
    truth_a: Truth,
    truth_b: Truth,
)
    requires
        a.wf(),
        b.wf(),
        agrees_with(a.derived, keeps, collection_of(op), t),
        agrees_with(b.derived, keeps, collection_of(op), t),
        honest(a.result_cache.model(), home, truth_a),
        honest(b.result_cache.model(), home, truth_b),
        truth_a(key, epoch_of(a.epochs, collection_of(op))) == truth_b(
            key,
            epoch_of(b.epochs, collection_of(op)),
        ),
    ensures
        match (stage(a, op, shape, key, mode), stage(b, op, shape, key, mode)) {
            (Stage::View(v), Stage::View(w)) => answer_rows(v.def(), v.groups()) == answer_rows(
                w.def(),
                w.groups(),
            ),
            (Stage::Kept(x), Stage::Kept(y)) => x == y,
            (Stage::Identity(i), Stage::Identity(j)) => i == j,
            _ => true,
        },
        stage(a, op, shape, key, mode) matches Stage::Kept(x) ==> x == truth_b(
            key,
            epoch_of(b.epochs, collection_of(op)),
        ),
{
    let (x, y) = (stage(a, op, shape, key, mode), stage(b, op, shape, key, mode));
    if x is View && y is View {
        let ids = lemma_view_of_records(a, keeps, t, op);
        let others = lemma_view_of_records(b, keeps, t, op);
        lemma_listed_in_any_order(ids, others, t);
        MaterializedView::exact_views_of_the_same_rows_answer_alike(
            x->View_0,
            y->View_0,
            listed(ids, t),
            listed(others, t),
        );
    }
    if x is Kept {
        assert(a.result_cache.model().entries.contains_key(key));
    }
    if y is Kept {
        assert(b.result_cache.model().entries.contains_key(key));
    }
}

} // verus!
