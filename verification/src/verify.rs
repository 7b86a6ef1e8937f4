//! Checking what is derived against the records it is derived from.
//!
//! An index is checked both ways: every id it holds must be a record's, and
//! every record that belongs must be found under its key. A columnar copy must
//! have the records' ids and no others. Nothing found means consistent.

use vstd::prelude::*;
use vstd::string::*;
use crate::action::{kind_text, IndexKind};
use crate::assoc::find;
use crate::caches::{rows_model, Rows};
use crate::column::{in_id_order, live_spots, ColumnStore, StoreModel};
use crate::derived::{columns_faithful, Derived};
use crate::expr::{Expr, ExprModel};
use crate::exprcodec::{decode_expr_hex, decoded_hex};
use crate::index::{
    askable, evaluates, faithful, field_values, ids_under, key_of, key_under, lemma_ids_under,
    shape_name, values_in, Index, IndexModel, Keeps, Records, ShapeModel,
};
use crate::names::{classify_index, named, IndexShape, NameModel};
use crate::record::{Record, RecordModel};
use crate::rows::{ascending, has_row, RowsModel};
use crate::sorting::Spot;
use crate::text::{dec_text, push_dec, texts};
use crate::value::{models, Value, ValueModel};

verus! {

/// One disagreement.
#[derive(Debug, PartialEq, Eq)]
pub enum Divergence {
    /// An index holds an id that no record has.
    Dangling { collection: String, index: String, kind: IndexKind, id: u64, key: Value },
    /// An index's condition does not decode, so who belongs cannot be said.
    Undecodable { collection: String, index: String },
    /// A record that belongs is not found under its key.
    Unlisted { collection: String, index: String, id: u64, key: Value },
    /// A columnar copy has ids that no record has.
    ExtraColumns { collection: String, count: usize },
    /// A columnar copy lacks ids that records have.
    MissingColumns { collection: String, count: usize },
}

/// What a [`Divergence`] says.
pub enum DivergenceModel {
    Dangling {
        collection: Seq<char>,
        index: Seq<char>,
        kind: IndexKind,
        id: u64,
        key: ValueModel,
    },
    Undecodable { collection: Seq<char>, index: Seq<char> },
    Unlisted { collection: Seq<char>, index: Seq<char>, id: u64, key: ValueModel },
    ExtraColumns { collection: Seq<char>, count: nat },
    MissingColumns { collection: Seq<char>, count: nat },
}

impl View for Divergence {
    type V = DivergenceModel;

    open spec fn view(&self) -> DivergenceModel {
        match self {
            Divergence::Dangling { collection, index, kind, id, key } => DivergenceModel::Dangling {
                collection: collection@,
                index: index@,
                kind: *kind,
                id: *id,
                key: key.model(),
            },
            Divergence::Undecodable { collection, index } => DivergenceModel::Undecodable {
                collection: collection@,
                index: index@,
            },
            Divergence::Unlisted { collection, index, id, key } => DivergenceModel::Unlisted {
                collection: collection@,
                index: index@,
                id: *id,
                key: key.model(),
            },
            Divergence::ExtraColumns { collection, count } => DivergenceModel::ExtraColumns {
                collection: collection@,
                count: *count as nat,
            },
            Divergence::MissingColumns { collection, count } => DivergenceModel::MissingColumns {
                collection: collection@,
                count: *count as nat,
            },
        }
    }
}

pub open spec fn divergences(s: Seq<Divergence>) -> Seq<DivergenceModel> {
    s.map_values(|d: Divergence| d@)
}

/// The line a disagreement is reported as, where `index` and `key` are how the
/// index's name and the key are written.
pub open spec fn line_text(d: DivergenceModel, index: Seq<char>, key: Seq<char>) -> Seq<char> {
    match d {
        DivergenceModel::Dangling { collection, kind, id, .. } => collection + ": index "@ + index
            + " ("@ + kind_text(kind) + ") holds id "@ + dec_text(id as nat) + " under key "@ + key
            + " but the heap has no such record"@,
        DivergenceModel::Undecodable { collection, .. } => collection + ": partial index "@ + index
            + " carries a condition that will not decode; forward verification skipped"@,
        DivergenceModel::Unlisted { collection, id, .. } => collection + ": record "@ + dec_text(
            id as nat,
        ) + " holds key "@ + key + " but index "@ + index + " does not list it"@,
        DivergenceModel::ExtraColumns { collection, count } => collection
            + ": column store holds "@ + dec_text(count) + " ids the heap does not have"@,
        DivergenceModel::MissingColumns { collection, count } => collection
            + ": column store is missing "@ + dec_text(count) + " ids the heap has"@,
    }
}

impl Divergence {
    /// The line this disagreement is reported as, given how the index's name and
    /// the key are to be written.
    pub fn line(&self, index: &str, key: &str) -> (s: String)
        ensures
            s@ == line_text(self@, index@, key@),
    {
        match self {
            Divergence::Dangling { collection, kind, id, .. } => {
                let mut s = collection.clone();
                s.append(": index ");
                s.append(index);
                s.append(" (");
                s.append(kind.as_str());
                s.append(") holds id ");
                push_dec(&mut s, *id);
                s.append(" under key ");
                s.append(key);
                s.append(" but the heap has no such record");
                s
            },
            Divergence::Undecodable { collection, .. } => {
                let mut s = collection.clone();
                s.append(": partial index ");
                s.append(index);
                s.append(
                    " carries a condition that will not decode; forward verification skipped",
                );
                s
            },
            Divergence::Unlisted { collection, id, .. } => {
                let mut s = collection.clone();
                s.append(": record ");
                push_dec(&mut s, *id);
                s.append(" holds key ");
                s.append(key);
                s.append(" but index ");
                s.append(index);
                s.append(" does not list it");
                s
            },
            Divergence::ExtraColumns { collection, count } => {
                let mut s = collection.clone();
                s.append(": column store holds ");
                push_dec(&mut s, *count as u64);
                s.append(" ids the heap does not have");
                s
            },
            Divergence::MissingColumns { collection, count } => {
                let mut s = collection.clone();
                s.append(": column store is missing ");
                push_dec(&mut s, *count as u64);
                s.append(" ids the heap has");
                s
            },
        }
    }
}

/// What was checked and what disagreed. No problems means consistent.
#[derive(Debug)]
pub struct VerifyReport {
    pub problems: Vec<Divergence>,
    pub records_checked: u64,
    pub indexes_checked: usize,
}

impl Default for VerifyReport {
    fn default() -> (r: VerifyReport)
        ensures
            r.problems@ == Seq::<Divergence>::empty(),
            r.records_checked == 0,
            r.indexes_checked == 0,
    {
        VerifyReport { problems: Vec::new(), records_checked: 0, indexes_checked: 0 }
    }
}

// -- indexes ------------------------------------------------------------------

/// The entries among the first `n` whose id no record has.
pub open spec fn dangling(
    c: Seq<char>,
    m: IndexModel,
    rows: RowsModel,
    n: int,
) -> Seq<DivergenceModel>
    decreases n,
{
    if n <= 0 {
        Seq::empty()
    } else {
        let before = dangling(c, m, rows, n - 1);
        let e = m.entries[n - 1];
        if find(rows, e.1) is None {
            before.push(
                DivergenceModel::Dangling {
                    collection: c,
                    index: shape_name(m.shape),
                    kind: m.kind,
                    id: e.1,
                    key: e.0,
                },
            )
        } else {
            before
        }
    }
}

/// Who belongs in an index, going by its name: the fields whose values make the
/// key, and the condition if there is one. Nothing where a condition does not
/// decode.
pub open spec fn membership(name: Seq<char>) -> Option<(Seq<Seq<char>>, Option<ExprModel>)> {
    match named(name) {
        NameModel::Ordinary(f) => Some((seq![f], None)),
        NameModel::Covering(f, _) => Some((seq![f], None)),
        NameModel::Composite(fs) => Some((fs, None)),
        NameModel::Partial(f, hex) => match decoded_hex(hex) {
            Ok(e) => Some((seq![f], Some(e))),
            Err(_) => None,
        },
    }
}

/// The key a record is expected under.
pub open spec fn expected_key(
    fields: Seq<Seq<char>>,
    condition: Option<ExprModel>,
    keeps: Keeps,
    r: RecordModel,
) -> Option<ValueModel> {
    if condition matches Some(e) && !keeps(e, r) {
        None
    } else {
        match values_in(r, fields) {
            None => None,
            Some(vs) => if vs.len() == 1 {
                Some(vs[0])
            } else {
                Some(ValueModel::List(vs))
            },
        }
    }
}

/// The records among the first `n` that belong and are not found.
pub open spec fn unlisted(
    c: Seq<char>,
    m: IndexModel,
    fields: Seq<Seq<char>>,
    condition: Option<ExprModel>,
    keeps: Keeps,
    rows: RowsModel,
    n: int,
) -> Seq<DivergenceModel>
    decreases n,
{
    if n <= 0 {
        Seq::empty()
    } else {
        let before = unlisted(c, m, fields, condition, keeps, rows, n - 1);
        let (id, r) = rows[n - 1];
        match expected_key(fields, condition, keeps, r) {
            Some(k) => if ids_under(m.entries, k).contains(id) {
                before
            } else {
                before.push(
                    DivergenceModel::Unlisted {
                        collection: c,
                        index: shape_name(m.shape),
                        id,
                        key: k,
                    },
                )
            },
            None => before,
        }
    }
}

/// What is wrong with an index.
pub open spec fn index_problems(
    c: Seq<char>,
    m: IndexModel,
    keeps: Keeps,
    rows: RowsModel,
) -> Seq<DivergenceModel> {
    dangling(c, m, rows, m.entries.len() as int) + match membership(shape_name(m.shape)) {
        None => seq![
            DivergenceModel::Undecodable { collection: c, index: shape_name(m.shape) },
        ],
        Some((fields, condition)) => unlisted(
            c,
            m,
            fields,
            condition,
            keeps,
            rows,
            rows.len() as int,
        ),
    }
}

/// What is wrong with the first `n` indexes of a collection.
pub open spec fn all_index_problems(
    c: Seq<char>,
    s: Seq<IndexModel>,
    keeps: Keeps,
    rows: RowsModel,
    n: int,
) -> Seq<DivergenceModel>
    decreases n,
{
    if n <= 0 {
        Seq::empty()
    } else {
        all_index_problems(c, s, keeps, rows, n - 1) + index_problems(c, s[n - 1], keeps, rows)
    }
}

fn has_id(ids: &Vec<u64>, id: u64) -> (r: bool)
    ensures
        r == ids@.contains(id),
{
    let mut i: usize = 0;
    while i < ids.len()
        invariant
            i <= ids@.len(),
            forall|k: int| 0 <= k < i ==> #[trigger] ids@[k] != id,
        decreases ids.len() - i,
    {
        if ids[i] == id {
            assert(ids@[i as int] == id);
            return true;
        }
        i += 1;
    }
    false
}

fn report_dangling(collection: &str, idx: &Index, rows: &Rows, problems: &mut Vec<Divergence>)
    requires
        idx.wf(),
        ascending(rows_model(rows@)),
    ensures
        divergences(final(problems)@) == divergences(old(problems)@) + dangling(
            collection@,
            idx@,
            rows_model(rows@),
            idx@.entries.len() as int,
        ),
{
    let ghost start = divergences(problems@);
    let ghost c = collection@;
    let ghost m = idx@;
    let ghost t = rows_model(rows@);
    let n: usize = idx.len();
    let mut i: usize = 0;
    assert(start + Seq::<DivergenceModel>::empty() =~= start);
    while i < n
        invariant
            i <= n,
            n == m.entries.len(),
            idx.wf(),
            m == idx@,
            c == collection@,
            t == rows_model(rows@),
            ascending(t),
            divergences(problems@) == start + dangling(c, m, t, i as int),
        decreases n - i,
    {
        let (key, id) = idx.entry_at(i);
        if !has_row(rows, id) {
            let ghost before = divergences(problems@);
            let d = Divergence::Dangling {
                collection: collection.to_owned(),
                index: idx.field(),
                kind: idx.kind(),
                id,
                key: key.dup(),
            };
            problems.push(d);
            assert(divergences(problems@) =~= before.push(d@));
            assert(start + dangling(c, m, t, i + 1) =~= (start + dangling(c, m, t, i as int)).push(
                d@,
            ));
        }
        i += 1;
    }
}

fn report_unlisted<E: Fn(&Expr, &Record) -> bool>(
    collection: &str,
    idx: &Index,
    fields: &Vec<String>,
    condition: &Option<Expr>,
    rows: &Rows,
    eval: &E,
    problems: &mut Vec<Divergence>,
)
    requires
        idx.wf(),
        askable(*eval),
    ensures
        forall|keeps: Keeps| #[trigger]
            evaluates(*eval, keeps) ==> divergences(final(problems)@) == divergences(old(problems)@)
                + unlisted(
                collection@,
                idx@,
                texts(fields@),
                condition_model(*condition),
                keeps,
                rows_model(rows@),
                rows@.len() as int,
            ),
{
    let ghost start = divergences(problems@);
    let ghost c = collection@;
    let ghost m = idx@;
    let ghost t = rows_model(rows@);
    let ghost fs = texts(fields@);
    let ghost cond = condition_model(*condition);
    let mut i: usize = 0;
    assert(start + Seq::<DivergenceModel>::empty() =~= start);
    while i < rows.len()
        invariant
            i <= rows@.len(),
            idx.wf(),
            askable(*eval),
            m == idx@,
            c == collection@,
            t == rows_model(rows@),
            fs == texts(fields@),
            cond == condition_model(*condition),
            forall|keeps: Keeps| #[trigger]
                evaluates(*eval, keeps) ==> divergences(problems@) == start + unlisted(
                    c,
                    m,
                    fs,
                    cond,
                    keeps,
                    t,
                    i as int,
                ),
        decreases rows.len() - i,
    {
        let row = &rows[i];
        assert(t[i as int] == (row.0, row.1.model()));
        let ghost before = divergences(problems@);
        let kept: bool = match condition {
            Some(e) => eval(e, &row.1),
            None => true,
        };
        let probe: Option<Value> = if !kept {
            None
        } else {
            match field_values(&row.1, fields) {
                None => None,
                Some(vs) => {
                    if vs.len() == 1 {
                        assert(models(vs@)[0] == vs@[0].model());
                        Some(vs[0].dup())
                    } else {
                        assert(Value::List(vs).model()->List_0 =~= models(vs@));
                        Some(Value::List(vs))
                    }
                },
            }
        };
        proof {
            assert forall|keeps: Keeps| #[trigger] evaluates(*eval, keeps) implies match expected_key(
                fs,
                cond,
                keeps,
                row.1.model(),
            ) {
                Some(k) => probe matches Some(v) && v.model() == k,
                None => probe is None,
            } by {}
        }
        match probe {
            None => {},
            Some(key) => {
                let ids = idx.lookup(&key);
                if !has_id(&ids, row.0) {
                    let d = Divergence::Unlisted {
                        collection: collection.to_owned(),
                        index: idx.field(),
                        id: row.0,
                        key,
                    };
                    problems.push(d);
                    assert(divergences(problems@) =~= before.push(d@));
                    proof {
                        assert forall|keeps: Keeps| #[trigger] evaluates(*eval, keeps) implies start
                            + unlisted(c, m, fs, cond, keeps, t, i + 1) == (start + unlisted(
                            c,
                            m,
                            fs,
                            cond,
                            keeps,
                            t,
                            i as int,
                        )).push(d@) by {
                            assert(start + unlisted(c, m, fs, cond, keeps, t, i + 1) =~= (start
                                + unlisted(c, m, fs, cond, keeps, t, i as int)).push(d@));
                        }
                    }
                }
            },
        }
        i += 1;
    }
}

pub open spec fn condition_model(c: Option<Expr>) -> Option<ExprModel> {
    match c {
        Some(e) => Some(e.model()),
        None => None,
    }
}

/// Check one index of a collection against its records.
pub fn verify_index<E: Fn(&Expr, &Record) -> bool>(
    collection: &str,
    idx: &Index,
    rows: &Rows,
    eval: &E,
    problems: &mut Vec<Divergence>,
)
    requires
        idx.wf(),
        ascending(rows_model(rows@)),
        askable(*eval),
    ensures
        forall|keeps: Keeps| #[trigger]
            evaluates(*eval, keeps) ==> divergences(final(problems)@) == divergences(old(problems)@)
                + index_problems(collection@, idx@, keeps, rows_model(rows@)),
{
    let ghost start = divergences(problems@);
    report_dangling(collection, idx, rows, problems);
    let ghost mid = divergences(problems@);
    let name = idx.field();
    let mut condition: Option<Expr> = None;
    let fields: Vec<String> = match classify_index(name.as_str()) {
        IndexShape::Ordinary(f) => vec![f],
        IndexShape::Covering(f, _) => vec![f],
        IndexShape::Composite(fs) => fs,
        IndexShape::Partial(f, hex) => match decode_expr_hex(hex.as_str()) {
            Ok(e) => {
                condition = Some(e);
                vec![f]
            },
            Err(_) => {
                let d = Divergence::Undecodable {
                    collection: collection.to_owned(),
                    index: name.clone(),
                };
                problems.push(d);
                proof {
                    assert(divergences(problems@) =~= mid.push(d@));
                    assert forall|keeps: Keeps| #[trigger] evaluates(*eval, keeps) implies divergences(
                        problems@,
                    ) == start + index_problems(collection@, idx@, keeps, rows_model(rows@)) by {
                        assert(start + index_problems(
                            collection@,
                            idx@,
                            keeps,
                            rows_model(rows@),
                        ) =~= mid.push(d@));
                    }
                }
                return;
            },
        },
    };
    report_unlisted(collection, idx, &fields, &condition, rows, eval, problems);
    proof {
        let m = membership(name@);
        assert(m == Some((texts(fields@), condition_model(condition)))) by {
            match named(name@) {
                NameModel::Composite(fs) => {},
                _ => {
                    assert(texts(fields@) =~= seq![fields@[0]@]);
                },
            }
        }
        assert forall|keeps: Keeps| #[trigger] evaluates(*eval, keeps) implies divergences(
            problems@,
        ) == start + index_problems(collection@, idx@, keeps, rows_model(rows@)) by {
            assert(start + index_problems(collection@, idx@, keeps, rows_model(rows@)) =~= mid
                + unlisted(
                collection@,
                idx@,
                texts(fields@),
                condition_model(condition),
                keeps,
                rows_model(rows@),
                rows@.len() as int,
            ));
        }
    }
}

// -- columnar copies ----------------------------------------------------------

/// How many live rows among the first `n` have an id that no record has.
pub open spec fn extra_rows(m: StoreModel, rows: RowsModel, n: int) -> nat
    decreases n,
{
    if n <= 0 {
        0
    } else {
        extra_rows(m, rows, n - 1) + if !m.dead[n - 1] && find(rows, m.ids[n - 1]) is None {
            1nat
        } else {
            0
        }
    }
}

/// Whether a live row has an id.
pub open spec fn has_live(m: StoreModel, id: u64) -> bool {
    exists|row: int| 0 <= row < m.ids.len() && !m.dead[row] && #[trigger] m.ids[row] == id
}

/// How many of the first `n` records have no live row.
pub open spec fn missing_rows(m: StoreModel, rows: RowsModel, n: int) -> nat
    decreases n,
{
    if n <= 0 {
        0
    } else {
        missing_rows(m, rows, n - 1) + if has_live(m, rows[n - 1].0) {
            0nat
        } else {
            1
        }
    }
}

/// What is wrong with a columnar copy.
pub open spec fn column_problems(c: Seq<char>, m: StoreModel, rows: RowsModel) -> Seq<
    DivergenceModel,
> {
    let extra = extra_rows(m, rows, m.ids.len() as int);
    let missing = missing_rows(m, rows, rows.len() as int);
    (if extra > 0 {
        seq![DivergenceModel::ExtraColumns { collection: c, count: extra }]
    } else {
        Seq::empty()
    }) + (if missing > 0 {
        seq![DivergenceModel::MissingColumns { collection: c, count: missing }]
    } else {
        Seq::empty()
    })
}

/// The ids in order are those of the live rows.
proof fn lemma_live_listed(m: StoreModel, o: Seq<Spot>, ids: Seq<u64>, id: u64)
    requires
        crate::column::coherent(m),
        m.ids.len() <= usize::MAX,
        in_id_order(m, o),
        ids == o.map_values(|s: Spot| s.0),
    ensures
        ids.contains(id) <==> has_live(m, id),
{
    let n = m.ids.len() as int;
    let live = live_spots(m, n);
    crate::column::lemma_live_spots(m, n);
    o.to_multiset_ensures();
    live.to_multiset_ensures();
    if ids.contains(id) {
        let k = choose|k: int| 0 <= k < ids.len() && ids[k] == id;
        assert(o[k].0 == id);
        assert(o.contains(o[k]));
        assert(o.to_multiset().count(o[k]) > 0);
        assert(live.contains(o[k]));
        let j = choose|j: int| 0 <= j < live.len() && live[j] == o[k];
        assert(m.ids[live[j].1 as int] == id);
    }
    if has_live(m, id) {
        let row = choose|row: int|
            0 <= row < m.ids.len() && !m.dead[row] && #[trigger] m.ids[row] == id;
        let s = (m.ids[row], row as usize);
        assert(live.contains(s));
        assert(live.to_multiset().count(s) > 0);
        assert(o.contains(s));
        let k = choose|k: int| 0 <= k < o.len() && o[k] == s;
        assert(ids[k] == id);
    }
}

/// Check a collection's columnar copy against its records.
pub fn verify_columns(
    collection: &str,
    cs: &ColumnStore,
    rows: &Rows,
    problems: &mut Vec<Divergence>,
)
    requires
        cs.wf(),
        ascending(rows_model(rows@)),
    ensures
        divergences(final(problems)@) == divergences(old(problems)@) + column_problems(
            collection@,
            cs@,
            rows_model(rows@),
        ),
{
    let ghost start = divergences(problems@);
    let ghost m = cs@;
    let ghost t = rows_model(rows@);
    let total: usize = cs.total_rows();
    proof {
        cs.a_store_is_coherent();
    }
    let mut extra: usize = 0;
    let mut row: usize = 0;
    while row < total
        invariant
            row <= total,
            total == m.ids.len(),
            cs.wf(),
            m == cs@,
            t == rows_model(rows@),
            ascending(t),
            extra <= row,
            extra == extra_rows(m, t, row as int),
        decreases total - row,
    {
        match cs.live_at(row) {
            Some(id) => {
                if !has_row(rows, id) {
                    extra += 1;
                }
            },
            None => {},
        }
        row += 1;
    }
    let ids = cs.live_ids();
    let mut missing: usize = 0;
    let mut i: usize = 0;
    while i < rows.len()
        invariant
            i <= rows@.len(),
            m == cs@,
            total == m.ids.len(),
            crate::column::coherent(m),
            t == rows_model(rows@),
            exists|o: Seq<Spot>| #[trigger] in_id_order(m, o) && ids@ == o.map_values(|s: Spot| s.0),
            missing <= i,
            missing == missing_rows(m, t, i as int),
        decreases rows.len() - i,
    {
        proof {
            let o = choose|o: Seq<Spot>| #[trigger]
                in_id_order(m, o) && ids@ == o.map_values(|s: Spot| s.0);
            lemma_live_listed(m, o, ids@, rows@[i as int].0);
            assert(t[i as int].0 == rows@[i as int].0);
        }
        if !has_id(&ids, rows[i].0) {
            missing += 1;
        }
        i += 1;
    }
    if extra > 0 {
        let d = Divergence::ExtraColumns { collection: collection.to_owned(), count: extra };
        problems.push(d);
        assert(divergences(problems@) =~= start.push(d@));
    }
    let ghost mid = divergences(problems@);
    if missing > 0 {
        let d = Divergence::MissingColumns { collection: collection.to_owned(), count: missing };
        problems.push(d);
        assert(divergences(problems@) =~= mid.push(d@));
    }
    assert(divergences(problems@) =~= start + column_problems(collection@, m, t));
}

// -- a collection -------------------------------------------------------------

/// What is wrong with everything derived from a collection. Views are not
/// checked: one may be inexact by design.
pub open spec fn collection_problems(
    d: Derived,
    c: Seq<char>,
    keeps: Keeps,
    rows: RowsModel,
) -> Seq<DivergenceModel> {
    all_index_problems(c, d.indexes_of(c), keeps, rows, d.indexes_of(c).len() as int) + match d.columns_of(c) {
        Some(m) => column_problems(c, m, rows),
        None => Seq::empty(),
    }
}

impl Derived {
    /// Check everything derived from a collection against its records.
    pub fn verify<E: Fn(&Expr, &Record) -> bool>(
        &self,
        collection: &str,
        rows: &Rows,
        eval: &E,
        report: &mut VerifyReport,
    )
        requires
            self.wf(),
            ascending(rows_model(rows@)),
            askable(*eval),
            old(report).records_checked + rows@.len() <= u64::MAX,
            old(report).indexes_checked + self.indexes_of(collection@).len() <= usize::MAX,
        ensures
            final(report).records_checked == old(report).records_checked + rows@.len(),
            final(report).indexes_checked == old(report).indexes_checked + self.indexes_of(
                collection@,
            ).len(),
            forall|keeps: Keeps| #[trigger]
                evaluates(*eval, keeps) ==> divergences(final(report).problems@) == divergences(
                    old(report).problems@,
                ) + collection_problems(*self, collection@, keeps, rows_model(rows@)),
    {
        let ghost start = divergences(report.problems@);
        let ghost c = collection@;
        let ghost t = rows_model(rows@);
        let ghost s = self.indexes_of(c);
        report.records_checked = report.records_checked + rows.len() as u64;
        assert(start + Seq::<DivergenceModel>::empty() =~= start);
        match self.indexes.get(collection) {
            None => {},
            Some(list) => {
                assert(self.indexes.of(c) == Some(*list));
                report.indexes_checked = report.indexes_checked + list.len();
                let mut i: usize = 0;
                while i < list.len()
                    invariant
                        i <= list@.len(),
                        crate::derived::all_ordered(list@),
                        askable(*eval),
                        ascending(t),
                        t == rows_model(rows@),
                        c == collection@,
                        s == crate::derived::index_models(list@),
                        report.records_checked == old(report).records_checked + rows@.len(),
                        report.indexes_checked == old(report).indexes_checked + list@.len(),
                        forall|keeps: Keeps| #[trigger]
                            evaluates(*eval, keeps) ==> divergences(report.problems@) == start
                                + all_index_problems(c, s, keeps, t, i as int),
                    decreases list.len() - i,
                {
                    let ghost before = divergences(report.problems@);
                    assert(list@[i as int].wf());
                    assert(s[i as int] == list@[i as int]@);
                    verify_index(collection, &list[i], rows, eval, &mut report.problems);
                    proof {
                        assert forall|keeps: Keeps| #[trigger] evaluates(*eval, keeps) implies divergences(
                            report.problems@,
                        ) == start + all_index_problems(c, s, keeps, t, i + 1) by {
                            assert(before == start + all_index_problems(c, s, keeps, t, i as int));
                            assert(start + all_index_problems(c, s, keeps, t, i + 1) =~= before
                                + index_problems(c, s[i as int], keeps, t));
                        }
                    }
                    i += 1;
                }
            },
        }
        let ghost mid = divergences(report.problems@);
        match self.columns.get(collection) {
            None => {
                proof {
                    assert forall|keeps: Keeps| #[trigger] evaluates(*eval, keeps) implies divergences(
                        report.problems@,
                    ) == start + collection_problems(*self, c, keeps, t) by {
                        assert(start + collection_problems(*self, c, keeps, t) =~= mid);
                    }
                }
            },
            Some(cs) => {
                assert(self.columns.of(c) == Some(*cs));
                verify_columns(collection, cs, rows, &mut report.problems);
                proof {
                    assert forall|keeps: Keeps| #[trigger] evaluates(*eval, keeps) implies divergences(
                        report.problems@,
                    ) == start + collection_problems(*self, c, keeps, t) by {
                        assert(start + collection_problems(*self, c, keeps, t) =~= mid
                            + column_problems(c, cs@, t));
                    }
                }
            },
        }
    }
}

// -- what a report means ------------------------------------------------------

/// The records that rows hold.
pub open spec fn records_of(rows: RowsModel) -> Records {
    Map::new(|id: u64| find(rows, id) is Some, |id: u64| find(rows, id)->Some_0)
}

/// Whether an index's name says what the index is: its key is made of the fields
/// the name gives, under the condition the name encodes.
pub open spec fn well_named(m: IndexModel) -> bool {
    match m.shape {
        ShapeModel::Ordinary { field } => membership(shape_name(m.shape)) == Some(
            (seq![field], None::<ExprModel>),
        ),
        ShapeModel::Covering { field, .. } => membership(shape_name(m.shape)) == Some(
            (seq![field], None::<ExprModel>),
        ),
        ShapeModel::Composite { fields } => fields.len() >= 2 && membership(shape_name(m.shape))
            == Some((fields, None::<ExprModel>)),
        ShapeModel::Partial { field, condition, .. } => membership(shape_name(m.shape)) == Some(
            (seq![field], Some(condition)),
        ),
    }
}

proof fn lemma_values_of_one(r: RecordModel, field: Seq<char>)
    ensures
        values_in(r, seq![field]) == match crate::index::value_in(r, field) {
            Some(v) => Some(seq![v]),
            None => None,
        },
{
    let s = seq![field];
    assert(s.drop_last() =~= Seq::empty());
    assert(values_in(r, s.drop_last()) == Some(Seq::<ValueModel>::empty()));
    assert(s.last() == field);
    if let Some(v) = crate::index::value_in(r, field) {
        assert(Seq::<ValueModel>::empty().push(v) =~= seq![v]);
    }
}

proof fn lemma_values_len(r: RecordModel, fields: Seq<Seq<char>>)
    ensures
        values_in(r, fields) matches Some(vs) ==> vs.len() == fields.len(),
    decreases fields.len(),
{
    if fields.len() > 0 {
        lemma_values_len(r, fields.drop_last());
    }
}

/// The key a record is expected under is the key it has.
proof fn lemma_expected_key(m: IndexModel, keeps: Keeps, r: RecordModel)
    requires
        well_named(m),
    ensures
        ({
            let (fields, condition) = membership(shape_name(m.shape))->Some_0;
            expected_key(fields, condition, keeps, r) == key_of(m.shape, keeps, r)
        }),
{
    match m.shape {
        ShapeModel::Ordinary { field } => {
            lemma_values_of_one(r, field);
        },
        ShapeModel::Covering { field, .. } => {
            lemma_values_of_one(r, field);
        },
        ShapeModel::Composite { fields } => {
            lemma_values_len(r, fields);
        },
        ShapeModel::Partial { field, .. } => {
            lemma_values_of_one(r, field);
        },
    }
}

proof fn lemma_no_dangling(c: Seq<char>, m: IndexModel, keeps: Keeps, rows: RowsModel, n: int)
    requires
        0 <= n <= m.entries.len(),
        faithful(m, keeps, records_of(rows)),
    ensures
        dangling(c, m, rows, n).len() == 0,
    decreases n,
{
    if n > 0 {
        lemma_no_dangling(c, m, keeps, rows, n - 1);
        let e = m.entries[n - 1];
        assert(m.entries.contains((e.0, e.1)));
        assert(key_under(m.shape, keeps, records_of(rows), e.1) == Some(e.0));
    }
}

proof fn lemma_none_unlisted(
    c: Seq<char>,
    m: IndexModel,
    fields: Seq<Seq<char>>,
    condition: Option<ExprModel>,
    keeps: Keeps,
    rows: RowsModel,
    n: int,
)
    requires
        0 <= n <= rows.len(),
        ascending(rows),
        well_named(m),
        membership(shape_name(m.shape)) == Some((fields, condition)),
        faithful(m, keeps, records_of(rows)),
    ensures
        unlisted(c, m, fields, condition, keeps, rows, n).len() == 0,
    decreases n,
{
    if n > 0 {
        lemma_none_unlisted(c, m, fields, condition, keeps, rows, n - 1);
        let (id, r) = rows[n - 1];
        lemma_expected_key(m, keeps, r);
        crate::rows::lemma_ascending_distinct(rows);
        crate::assoc::lemma_find_at(rows, id, n - 1);
        if let Some(k) = key_of(m.shape, keeps, r) {
            lemma_ids_under(m.entries, k);
            assert(key_under(m.shape, keeps, records_of(rows), id) == Some(k));
            assert(m.entries.contains((k, id)));
        }
    }
}

/// A faithful index has no problems.
proof fn lemma_index_sound(c: Seq<char>, m: IndexModel, keeps: Keeps, rows: RowsModel)
    requires
        ascending(rows),
        well_named(m),
        faithful(m, keeps, records_of(rows)),
    ensures
        index_problems(c, m, keeps, rows).len() == 0,
{
    lemma_no_dangling(c, m, keeps, rows, m.entries.len() as int);
    let (fields, condition) = membership(shape_name(m.shape))->Some_0;
    lemma_none_unlisted(c, m, fields, condition, keeps, rows, rows.len() as int);
}

proof fn lemma_all_indexes_sound(
    c: Seq<char>,
    s: Seq<IndexModel>,
    keeps: Keeps,
    rows: RowsModel,
    n: int,
)
    requires
        0 <= n <= s.len(),
        ascending(rows),
        forall|i: int|
            0 <= i < s.len() ==> well_named(#[trigger] s[i]) && faithful(
                s[i],
                keeps,
                records_of(rows),
            ),
    ensures
        all_index_problems(c, s, keeps, rows, n).len() == 0,
    decreases n,
{
    if n > 0 {
        lemma_all_indexes_sound(c, s, keeps, rows, n - 1);
        lemma_index_sound(c, s[n - 1], keeps, rows);
    }
}

proof fn lemma_columns_sound(c: Seq<char>, m: StoreModel, rows: RowsModel)
    requires
        ascending(rows),
        columns_faithful(m, records_of(rows)),
    ensures
        column_problems(c, m, rows).len() == 0,
{
    lemma_no_extra(m, rows, m.ids.len() as int);
    lemma_none_missing(m, rows, rows.len() as int);
}

proof fn lemma_no_extra(m: StoreModel, rows: RowsModel, n: int)
    requires
        0 <= n <= m.ids.len(),
        columns_faithful(m, records_of(rows)),
    ensures
        extra_rows(m, rows, n) == 0,
    decreases n,
{
    if n > 0 {
        lemma_no_extra(m, rows, n - 1);
        if !m.dead[n - 1] {
            assert(m.rows.dom().contains(m.ids[n - 1]));
        }
    }
}

proof fn lemma_none_missing(m: StoreModel, rows: RowsModel, n: int)
    requires
        0 <= n <= rows.len(),
        ascending(rows),
        columns_faithful(m, records_of(rows)),
    ensures
        missing_rows(m, rows, n) == 0,
    decreases n,
{
    if n > 0 {
        lemma_none_missing(m, rows, n - 1);
        let id = rows[n - 1].0;
        crate::rows::lemma_ascending_distinct(rows);
        crate::assoc::lemma_find_at(rows, id, n - 1);
        assert(records_of(rows).dom().contains(id));
        assert(m.rows.dom().contains(id));
        assert(m.ids[m.rows[id] as int] == id);
    }
}

/// A state that agrees with the records is reported clean.
pub proof fn an_agreeing_state_is_clean(d: Derived, c: Seq<char>, keeps: Keeps, rows: RowsModel)
    requires
        ascending(rows),
        crate::derived::agrees_with(d, keeps, c, records_of(rows)),
        forall|i: int| 0 <= i < d.indexes_of(c).len() ==> well_named(#[trigger] d.indexes_of(c)[i]),
    ensures
        collection_problems(d, c, keeps, rows) == Seq::<DivergenceModel>::empty(),
{
    let s = d.indexes_of(c);
    lemma_all_indexes_sound(c, s, keeps, rows, s.len() as int);
    if let Some(m) = d.columns_of(c) {
        lemma_columns_sound(c, m, rows);
    }
    assert(collection_problems(d, c, keeps, rows) =~= Seq::empty());
}

proof fn lemma_dangling_kept(c: Seq<char>, m: IndexModel, rows: RowsModel, i: int, n: int)
    requires
        0 <= i < n <= m.entries.len(),
        find(rows, m.entries[i].1) is None,
    ensures
        dangling(c, m, rows, n).len() > 0,
    decreases n,
{
    if i < n - 1 {
        lemma_dangling_kept(c, m, rows, i, n - 1);
    }
}

/// An id that outlived its record is reported.
pub proof fn a_dangling_id_is_reported(
    c: Seq<char>,
    m: IndexModel,
    keeps: Keeps,
    rows: RowsModel,
    i: int,
)
    requires
        0 <= i < m.entries.len(),
        find(rows, m.entries[i].1) is None,
    ensures
        index_problems(c, m, keeps, rows).len() > 0,
{
    lemma_dangling_kept(c, m, rows, i, m.entries.len() as int);
}

proof fn lemma_unlisted_kept(
    c: Seq<char>,
    m: IndexModel,
    fields: Seq<Seq<char>>,
    condition: Option<ExprModel>,
    keeps: Keeps,
    rows: RowsModel,
    i: int,
    n: int,
)
    requires
        0 <= i < n <= rows.len(),
        expected_key(fields, condition, keeps, rows[i].1) matches Some(k) && !ids_under(
            m.entries,
            k,
        ).contains(rows[i].0),
    ensures
        unlisted(c, m, fields, condition, keeps, rows, n).len() > 0,
    decreases n,
{
    if i < n - 1 {
        lemma_unlisted_kept(c, m, fields, condition, keeps, rows, i, n - 1);
    }
}

/// A record that belongs in an index and is not in it is reported.
pub proof fn a_lost_entry_is_reported(
    c: Seq<char>,
    m: IndexModel,
    keeps: Keeps,
    rows: RowsModel,
    i: int,
)
    requires
        well_named(m),
        0 <= i < rows.len(),
        key_of(m.shape, keeps, rows[i].1) matches Some(k) && !m.entries.contains((k, rows[i].0)),
    ensures
        index_problems(c, m, keeps, rows).len() > 0,
{
    let (fields, condition) = membership(shape_name(m.shape))->Some_0;
    lemma_expected_key(m, keeps, rows[i].1);
    let k = key_of(m.shape, keeps, rows[i].1)->Some_0;
    lemma_ids_under(m.entries, k);
    lemma_unlisted_kept(c, m, fields, condition, keeps, rows, i, rows.len() as int);
}

/// What is reported of an index is so: an id under a key that outlived its record, or a
/// record that belongs under a key and is not there. It is said of that index and
/// collection.
pub proof fn a_report_on_an_index_is_true(
    c: Seq<char>,
    m: IndexModel,
    keeps: Keeps,
    rows: RowsModel,
    d: DivergenceModel,
)
    requires
        well_named(m),
        ascending(rows),
        index_problems(c, m, keeps, rows).contains(d),
    ensures
        match d {
            DivergenceModel::Dangling { collection, index, kind, id, key } => {
                &&& collection == c && index == shape_name(m.shape) && kind == m.kind
                &&& m.entries.contains((key, id))
                &&& !records_of(rows).dom().contains(id)
            },
            DivergenceModel::Unlisted { collection, index, id, key } => {
                &&& collection == c && index == shape_name(m.shape)
                &&& records_of(rows).dom().contains(id)
                &&& crate::index::belongs_under(m.shape, keeps, records_of(rows)[id], key)
                &&& !m.entries.contains((key, id))
            },
            _ => false,
        },
{
    let (fields, condition) = membership(shape_name(m.shape))->Some_0;
    let a = dangling(c, m, rows, m.entries.len() as int);
    let b = unlisted(c, m, fields, condition, keeps, rows, rows.len() as int);
    let i = choose|i: int| 0 <= i < (a + b).len() && (a + b)[i] == d;
    if i < a.len() {
        lemma_dangling_true(c, m, rows, m.entries.len() as int, i);
    } else {
        lemma_unlisted_true(c, m, fields, condition, keeps, rows, rows.len() as int, i - a.len());
    }
}

proof fn lemma_dangling_true(c: Seq<char>, m: IndexModel, rows: RowsModel, n: int, i: int)
    requires
        0 <= n <= m.entries.len(),
        0 <= i < dangling(c, m, rows, n).len(),
    ensures
        dangling(c, m, rows, n)[i] matches DivergenceModel::Dangling {
            collection,
            index,
            kind,
            id,
            key,
        } && collection == c && index == shape_name(m.shape) && kind == m.kind && m.entries.contains(
            (key, id),
        ) && find(rows, id) is None,
    decreases n,
{
    if n > 0 {
        let before = dangling(c, m, rows, n - 1);
        if i < before.len() {
            lemma_dangling_true(c, m, rows, n - 1, i);
        } else {
            assert(m.entries[n - 1] == (m.entries[n - 1].0, m.entries[n - 1].1));
        }
    }
}

proof fn lemma_unlisted_true(
    c: Seq<char>,
    m: IndexModel,
    fields: Seq<Seq<char>>,
    condition: Option<ExprModel>,
    keeps: Keeps,
    rows: RowsModel,
    n: int,
    i: int,
)
    requires
        well_named(m),
        membership(shape_name(m.shape)) == Some((fields, condition)),
        ascending(rows),
        0 <= n <= rows.len(),
        0 <= i < unlisted(c, m, fields, condition, keeps, rows, n).len(),
    ensures
        unlisted(c, m, fields, condition, keeps, rows, n)[i] matches DivergenceModel::Unlisted {
            collection,
            index,
            id,
            key,
        } && collection == c && index == shape_name(m.shape) && find(rows, id) is Some
            && crate::index::belongs_under(m.shape, keeps, find(rows, id)->Some_0, key)
            && !m.entries.contains((key, id)),
    decreases n,
{
    if n > 0 {
        let before = unlisted(c, m, fields, condition, keeps, rows, n - 1);
        if i < before.len() {
            lemma_unlisted_true(c, m, fields, condition, keeps, rows, n - 1, i);
        } else {
            let (id, r) = rows[n - 1];
            let k = expected_key(fields, condition, keeps, r)->Some_0;
            crate::rows::lemma_ascending_distinct(rows);
            crate::assoc::lemma_find_at(rows, id, n - 1);
            lemma_expected_key(m, keeps, r);
            crate::index::lemma_belongs_under(m.shape, keeps, r, k);
            lemma_ids_under(m.entries, k);
        }
    }
}

/// What is reported of a columnar copy is how many of its live rows have no record, and
/// how many records have no live row. Nothing is reported where there are none.
pub proof fn a_report_on_a_copy_counts_what_disagrees(c: Seq<char>, m: StoreModel, rows: RowsModel)
    requires
        m.dead.len() == m.ids.len(),
    ensures
        ({
            let extra = Seq::new(m.ids.len(), |row: int| row).filter(
                |row: int| !m.dead[row] && find(rows, m.ids[row]) is None,
            ).len();
            let missing = rows.filter(
                |r: (u64, RecordModel)|
                    !(exists|row: int|
                        0 <= row < m.ids.len() && !m.dead[row] && #[trigger] m.ids[row] == r.0),
            ).len();
            let told = column_problems(c, m, rows);
            &&& told.contains(DivergenceModel::ExtraColumns { collection: c, count: extra }) <==> extra
                > 0
            &&& told.contains(DivergenceModel::MissingColumns { collection: c, count: missing })
                <==> missing > 0
            &&& told.len() == (if extra > 0 {
                1int
            } else {
                0
            }) + (if missing > 0 {
                1int
            } else {
                0
            })
        }),
{
    let n = m.ids.len() as int;
    let out = |row: int| !m.dead[row] && find(rows, m.ids[row]) is None;
    let lost = |r: (u64, RecordModel)|
        !(exists|row: int| 0 <= row < m.ids.len() && !m.dead[row] && #[trigger] m.ids[row] == r.0);
    lemma_extra_counts(m, rows, n, out);
    lemma_missing_counts(m, rows, rows.len() as int, lost);
    assert(rows.take(rows.len() as int) =~= rows);
    let extra = extra_rows(m, rows, n);
    let missing = missing_rows(m, rows, rows.len() as int);
    let told = column_problems(c, m, rows);
    if extra > 0 {
        assert(told[0] == DivergenceModel::ExtraColumns { collection: c, count: extra });
    }
    if missing > 0 {
        assert(told[told.len() - 1] == DivergenceModel::MissingColumns {
            collection: c,
            count: missing,
        });
    }
}

proof fn lemma_extra_counts(m: StoreModel, rows: RowsModel, n: int, out: spec_fn(int) -> bool)
    requires
        0 <= n <= m.ids.len(),
        forall|row: int| #[trigger]
            out(row) == (!m.dead[row] && find(rows, m.ids[row]) is None),
    ensures
        extra_rows(m, rows, n) == Seq::new(n as nat, |row: int| row).filter(out).len(),
    decreases n,
{
    reveal(Seq::filter);
    let s = Seq::new(n as nat, |row: int| row);
    if n > 0 {
        lemma_extra_counts(m, rows, n - 1, out);
        assert(s.drop_last() =~= Seq::new((n - 1) as nat, |row: int| row));
        assert(out(s.last()) == (!m.dead[n - 1] && find(rows, m.ids[n - 1]) is None));
    }
}

proof fn lemma_missing_counts(
    m: StoreModel,
    rows: RowsModel,
    n: int,
    lost: spec_fn((u64, RecordModel)) -> bool,
)
    requires
        0 <= n <= rows.len(),
        forall|r: (u64, RecordModel)| #[trigger] lost(r) == !has_live(m, r.0),
    ensures
        missing_rows(m, rows, n) == rows.take(n).filter(lost).len(),
    decreases n,
{
    reveal(Seq::filter);
    let s = rows.take(n);
    if n > 0 {
        lemma_missing_counts(m, rows, n - 1, lost);
        assert(s.drop_last() =~= rows.take(n - 1));
        assert(lost(s.last()) == !has_live(m, rows[n - 1].0));
    }
}

} // verus!
