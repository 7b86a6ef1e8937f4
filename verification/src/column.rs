//! Columnar storage: a derived representation for scans and aggregates.
//!
//! Each field is kept contiguously, typed by the first value it held. Text is
//! held once per distinct string, with one small number per row. A value not of its
//! column's type is passed over, and the column remembers that it was. Rows are
//! appended and marked dead, never changed in place.

use vstd::prelude::*;
use vstd::std_specs::hash::*;
use vstd::utf8::*;
use std::collections::HashMap;
use crate::expr::{push_new, Expr, ExprModel};
use crate::index::{askable, evaluates, Keeps};
use crate::assoc::{find, lemma_find_absent, lemma_find_some};
use crate::caches::{rows_model, Rows};
use crate::number::{
    add_capped, capped, mul_capped, number, number_of, Number, NumberModel, EXACT_INTEGER_LIMIT,
};
use crate::record::{field_of, Record, RecordModel};
use crate::rows::RowsModel;
use crate::sorting::{sort_spots, spot_before, spots_ordered, Spot};
use crate::strmap::{lemma_named_at, lemma_revalued, StrMap};
use crate::text::{str_eq, strictly_sorted, texts};
use crate::value::{
    lemma_list_before_total, lemma_list_before_transitive, lemma_value_before_total,
    lemma_value_before_transitive, list_before, models, value_before, values_before, values_same,
    Value, ValueModel,
};

verus! {

broadcast use vstd::std_specs::hash::group_hash_axioms;

// -- one field's values -------------------------------------------------------

/// What a column is made for.
#[derive(Clone, Copy, Debug, PartialEq, Eq, Structural)]
pub enum Kind {
    Bool,
    I64,
    U64,
    F64,
    Text,
    Other,
}

/// The column a first value asks for.
pub open spec fn kind_for(v: ValueModel) -> Kind {
    match v {
        ValueModel::Bool(_) => Kind::Bool,
        ValueModel::I64(_) => Kind::I64,
        ValueModel::U64(_) => Kind::U64,
        ValueModel::F64(_) => Kind::F64,
        ValueModel::Str(_) => Kind::Text,
        _ => Kind::Other,
    }
}

/// What a column keeps of a value: the value itself, or nothing where it is not of
/// the column's type. It keeps no other value in its place.
pub open spec fn kept(kind: Kind, v: ValueModel) -> Option<ValueModel> {
    match (kind, v) {
        (Kind::Bool, ValueModel::Bool(_)) => Some(v),
        (Kind::I64, ValueModel::I64(_)) => Some(v),
        (Kind::U64, ValueModel::U64(_)) => Some(v),
        (Kind::F64, ValueModel::F64(_)) => Some(v),
        (Kind::Text, ValueModel::Str(_)) => Some(v),
        (Kind::Other, _) => Some(v),
        _ => None,
    }
}

/// A column: what it is made for, what it holds for each row, and whether it ever
/// passed over a value not of its type, or a null.
pub struct ColumnModel {
    pub kind: Kind,
    pub cells: Seq<Option<ValueModel>>,
    pub lost: bool,
    pub blanked: bool,
}

/// A column that begins with a value and has nothing for the rows before.
pub open spec fn begun(v: Option<ValueModel>, rows: nat) -> ColumnModel {
    ColumnModel {
        kind: match v {
            Some(v) => kind_for(v),
            None => Kind::Other,
        },
        cells: Seq::new(rows, |i: int| None::<ValueModel>),
        lost: false,
        blanked: false,
    }
}

/// A column with a row more.
pub open spec fn with_cell(c: ColumnModel, v: Option<ValueModel>) -> ColumnModel {
    match v {
        None => ColumnModel { cells: c.cells.push(None), ..c },
        Some(v) => ColumnModel {
            kind: c.kind,
            cells: c.cells.push(kept(c.kind, v)),
            lost: c.lost || (kept(c.kind, v) is None && v != ValueModel::Null),
            blanked: c.blanked || (kept(c.kind, v) is None && v == ValueModel::Null),
        },
    }
}

/// The distinct strings among cells, in the order they first appear.
pub open spec fn vocabulary(cells: Seq<Option<ValueModel>>) -> Seq<Seq<char>>
    decreases cells.len(),
{
    if cells.len() == 0 {
        Seq::empty()
    } else {
        let before = vocabulary(cells.drop_last());
        match cells.last() {
            Some(ValueModel::Str(s)) => push_new(before, s),
            _ => before,
        }
    }
}

/// What strings cost to keep.
pub open spec fn words_cost(words: Seq<Seq<char>>) -> usize
    decreases words.len(),
{
    if words.len() == 0 {
        0
    } else {
        capped(words_cost(words.drop_last()) + capped(encode_utf8(words.last()).len() as int + 24))
    }
}

/// What cells of a kind cost to keep.
pub open spec fn cells_cost(kind: Kind, cells: Seq<Option<ValueModel>>) -> usize {
    match kind {
        Kind::Bool => capped(cells.len() as int * 2),
        Kind::I64 | Kind::U64 | Kind::F64 => capped(cells.len() as int * 9),
        Kind::Text => capped(capped(cells.len() as int * 5) + words_cost(vocabulary(cells))),
        Kind::Other => capped(cells.len() as int * 48),
    }
}

/// What a column costs to keep.
pub open spec fn column_cost(c: ColumnModel) -> usize {
    cells_cost(c.kind, c.cells)
}

#[derive(Debug)]
enum Cells {
    Bool(Vec<Option<bool>>),
    I64(Vec<Option<i64>>),
    U64(Vec<Option<u64>>),
    F64(Vec<Option<u64>>),
    /// Each row holds a place in `dict`.
    Dict { dict: Vec<String>, codes: Vec<Option<usize>> },
    /// Anything that does not fit a typed column.
    Other(Vec<Option<Value>>),
}

spec fn word(dict: Seq<String>, code: Option<usize>) -> Option<ValueModel> {
    match code {
        Some(c) => if c < dict.len() {
            Some(ValueModel::Str(dict[c as int]@))
        } else {
            None
        },
        None => None,
    }
}

impl Cells {
    spec fn kind(&self) -> Kind {
        match self {
            Cells::Bool(_) => Kind::Bool,
            Cells::I64(_) => Kind::I64,
            Cells::U64(_) => Kind::U64,
            Cells::F64(_) => Kind::F64,
            Cells::Dict { .. } => Kind::Text,
            Cells::Other(_) => Kind::Other,
        }
    }

    spec fn cells(&self) -> Seq<Option<ValueModel>> {
        match self {
            Cells::Bool(v) => v@.map_values(
                |c: Option<bool>|
                    match c {
                        Some(b) => Some(ValueModel::Bool(b)),
                        None => None,
                    },
            ),
            Cells::I64(v) => v@.map_values(
                |c: Option<i64>|
                    match c {
                        Some(n) => Some(ValueModel::I64(n)),
                        None => None,
                    },
            ),
            Cells::U64(v) => v@.map_values(
                |c: Option<u64>|
                    match c {
                        Some(n) => Some(ValueModel::U64(n)),
                        None => None,
                    },
            ),
            Cells::F64(v) => v@.map_values(
                |c: Option<u64>|
                    match c {
                        Some(n) => Some(ValueModel::F64(n)),
                        None => None,
                    },
            ),
            Cells::Dict { dict, codes } => codes@.map_values(|c: Option<usize>| word(dict@, c)),
            Cells::Other(v) => v@.map_values(
                |c: Option<Value>|
                    match c {
                        Some(v) => Some(v.model()),
                        None => None,
                    },
            ),
        }
    }

    spec fn wf(&self) -> bool {
        self matches Cells::Dict { dict, codes } ==> {
            &&& texts(dict@) == vocabulary(self.cells())
            &&& forall|i: int|
                0 <= i < codes@.len() ==> ((#[trigger] codes@[i]) matches Some(c) ==> c
                    < dict@.len())
        }
    }

    fn for_value(v: &Value) -> (c: Cells)
        ensures
            c.wf(),
            c.kind() == kind_for(v.model()),
            c.cells() == Seq::<Option<ValueModel>>::empty(),
    {
        let c = match v {
            Value::Bool(_) => Cells::Bool(Vec::new()),
            Value::I64(_) => Cells::I64(Vec::new()),
            Value::U64(_) => Cells::U64(Vec::new()),
            Value::F64(_) => Cells::F64(Vec::new()),
            Value::Str(_) => Cells::Dict { dict: Vec::new(), codes: Vec::new() },
            _ => Cells::Other(Vec::new()),
        };
        assert(c.cells() =~= Seq::empty());
        proof {
            if c is Dict {
                assert(texts(c->dict@) =~= Seq::empty());
            }
        }
        c
    }

    fn len(&self) -> (n: usize)
        ensures
            n == self.cells().len(),
    {
        match self {
            Cells::Bool(v) => v.len(),
            Cells::I64(v) => v.len(),
            Cells::U64(v) => v.len(),
            Cells::F64(v) => v.len(),
            Cells::Dict { codes, .. } => codes.len(),
            Cells::Other(v) => v.len(),
        }
    }

    fn get(&self, row: usize) -> (r: Option<Value>)
        requires
            self.wf(),
        ensures
            match (if row < self.cells().len() { self.cells()[row as int] } else { None }) {
                Some(m) => r matches Some(v) && v.model() == m,
                None => r is None,
            },
    {
        if row >= self.len() {
            return None;
        }
        match self {
            Cells::Bool(v) => match v[row] {
                Some(b) => Some(Value::Bool(b)),
                None => None,
            },
            Cells::I64(v) => match v[row] {
                Some(n) => Some(Value::I64(n)),
                None => None,
            },
            Cells::U64(v) => match v[row] {
                Some(n) => Some(Value::U64(n)),
                None => None,
            },
            Cells::F64(v) => match v[row] {
                Some(n) => Some(Value::F64(n)),
                None => None,
            },
            Cells::Dict { dict, codes } => match codes[row] {
                Some(c) => Some(Value::Str(dict[c].clone())),
                None => None,
            },
            Cells::Other(v) => match &v[row] {
                Some(x) => Some(x.dup()),
                None => None,
            },
        }
    }

    fn memory_bytes(&self) -> (n: usize)
        requires
            self.wf(),
        ensures
            n == cells_cost(self.kind(), self.cells()),
    {
        match self {
            Cells::Bool(v) => mul_capped(v.len(), 2),
            Cells::I64(v) => mul_capped(v.len(), 9),
            Cells::U64(v) => mul_capped(v.len(), 9),
            Cells::F64(v) => mul_capped(v.len(), 9),
            Cells::Dict { dict, codes } => {
                let ghost words = texts(dict@);
                let mut total: usize = 0;
                let mut i: usize = 0;
                assert(words.take(0) =~= Seq::empty());
                while i < dict.len()
                    invariant
                        i <= dict@.len(),
                        words == texts(dict@),
                        words.len() == dict@.len(),
                        total == words_cost(words.take(i as int)),
                    decreases dict.len() - i,
                {
                    let n: usize = dict[i].as_str().as_bytes().len();
                    assert(words.take(i + 1).drop_last() =~= words.take(i as int));
                    assert(words.take(i + 1).last() == dict@[i as int]@);
                    total = add_capped(total, add_capped(n, 24));
                    i += 1;
                }
                assert(words.take(i as int) =~= words);
                add_capped(mul_capped(codes.len(), 5), total)
            },
            Cells::Other(v) => mul_capped(v.len(), 48),
        }
    }

    fn push_null(&mut self)
        requires
            old(self).wf(),
        ensures
            final(self).wf(),
            final(self).kind() == old(self).kind(),
            final(self).cells() == old(self).cells().push(None),
    {
        let ghost before = self.cells();
        match self {
            Cells::Bool(v) => v.push(None),
            Cells::I64(v) => v.push(None),
            Cells::U64(v) => v.push(None),
            Cells::F64(v) => v.push(None),
            Cells::Dict { codes, .. } => codes.push(None),
            Cells::Other(v) => v.push(None),
        }
        assert(self.cells() =~= before.push(None));
        assert(before.push(None).drop_last() =~= before);
    }

    /// Hold nothing for the first `rows` rows.
    fn pad(&mut self, rows: usize)
        requires
            old(self).wf(),
            old(self).cells().len() == 0,
        ensures
            final(self).wf(),
            final(self).kind() == old(self).kind(),
            final(self).cells() == Seq::new(rows as nat, |i: int| None::<ValueModel>),
    {
        let mut i: usize = 0;
        while i < rows
            invariant
                i <= rows,
                self.wf(),
                self.kind() == old(self).kind(),
                self.cells() =~= Seq::new(i as nat, |i: int| None::<ValueModel>),
            decreases rows - i,
        {
            self.push_null();
            i += 1;
        }
    }

    /// Hold what is kept of a value, and tell whether that is the value.
    fn push(&mut self, v: &Value) -> (fits: bool)
        requires
            old(self).wf(),
        ensures
            fits == (kept(old(self).kind(), v.model()) is Some),
            final(self).wf(),
            final(self).kind() == old(self).kind(),
            final(self).cells() == old(self).cells().push(kept(old(self).kind(), v.model())),
    {
        let ghost before = self.cells();
        let ghost cell = kept(self.kind(), v.model());
        let fits: bool = match self {
            Cells::Bool(c) => match v {
                Value::Bool(b) => {
                    c.push(Some(*b));
                    true
                },
                _ => false,
            },
            Cells::I64(c) => match v {
                Value::I64(n) => {
                    c.push(Some(*n));
                    true
                },
                _ => false,
            },
            Cells::U64(c) => match v {
                Value::U64(n) => {
                    c.push(Some(*n));
                    true
                },
                _ => false,
            },
            Cells::F64(c) => match v {
                Value::F64(f) => {
                    c.push(Some(*f));
                    true
                },
                _ => false,
            },
            Cells::Dict { dict, codes } => match v {
                Value::Str(s) => {
                    let code: usize = code_for(dict, s.as_str());
                    codes.push(Some(code));
                    true
                },
                _ => false,
            },
            Cells::Other(c) => {
                c.push(Some(v.dup()));
                true
            },
        };
        if !fits {
            self.push_null();
        }
        proof {
            assert forall|i: int| 0 <= i < before.len() implies self.cells()[i] == before[i] by {
                if *self is Dict && *v is Str {
                    let code = (*old(self))->codes@[i];
                    assert((*self)->codes@[i] == code);
                    assert(code matches Some(c) ==> c < (*old(self))->dict@.len());
                    assert(code matches Some(c) ==> (*self)->dict@[c as int]
                        == (*old(self))->dict@[c as int]);
                }
            }
        }
        assert(self.cells() =~= before.push(cell));
        assert(before.push(cell).drop_last() =~= before);
        fits
    }
}

/// One field's values, and whether any was passed over.
#[derive(Debug)]
struct Column {
    held: Cells,
    lost: bool,
    blanked: bool,
}

impl Column {
    spec fn model(&self) -> ColumnModel {
        ColumnModel {
            kind: self.held.kind(),
            cells: self.held.cells(),
            lost: self.lost,
            blanked: self.blanked,
        }
    }

    spec fn wf(&self) -> bool {
        self.held.wf()
    }

    /// A column for a value that has nothing for the first `rows` rows.
    fn for_value(v: &Value, rows: usize) -> (c: Column)
        ensures
            c.wf(),
            c.model() == begun(Some(v.model()), rows as nat),
    {
        let mut held = Cells::for_value(v);
        held.pad(rows);
        Column { held, lost: false, blanked: false }
    }

    fn push_null(&mut self)
        requires
            old(self).wf(),
        ensures
            final(self).wf(),
            final(self).model() == with_cell(old(self).model(), None),
    {
        self.held.push_null();
    }

    fn push(&mut self, v: &Value)
        requires
            old(self).wf(),
        ensures
            final(self).wf(),
            final(self).model() == with_cell(old(self).model(), Some(v.model())),
    {
        if !self.held.push(v) {
            match v {
                Value::Null => {
                    self.blanked = true;
                },
                _ => {
                    self.lost = true;
                },
            }
        }
    }
}

/// Where a string stands among those known, added where it is new.
fn code_for(dict: &mut Vec<String>, s: &str) -> (code: usize)
    ensures
        texts(final(dict)@) == push_new(texts(old(dict)@), s@),
        old(dict)@.is_prefix_of(final(dict)@),
        code < final(dict)@.len(),
        final(dict)@[code as int]@ == s@,
{
    let mut i: usize = 0;
    while i < dict.len()
        invariant
            i <= dict.len(),
            dict@ == old(dict)@,
            forall|k: int| 0 <= k < i ==> (#[trigger] texts(dict@)[k]) != s@,
        decreases dict.len() - i,
    {
        assert(texts(dict@)[i as int] == dict@[i as int]@);
        if str_eq(dict[i].as_str(), s) {
            assert(texts(dict@).contains(s@));
            return i;
        }
        i += 1;
    }
    dict.push(s.to_owned());
    assert(!texts(old(dict)@).contains(s@));
    assert(texts(dict@) =~= texts(old(dict)@).push(s@));
    dict.len() - 1
}

// -- a collection by columns --------------------------------------------------

/// A columnar copy of one collection.
pub struct ColumnStore {
    ids: Vec<u64>,
    row_of: HashMap<u64, usize>,
    columns: StrMap<Column>,
    dead: Vec<bool>,
    dead_count: usize,
}

/// What a [`ColumnStore`] holds: the id of each row, whether it is dead, the row
/// each id is found at, and the columns.
#[verifier::ext_equal]
pub struct StoreModel {
    pub ids: Seq<u64>,
    pub dead: Seq<bool>,
    pub rows: Map<u64, usize>,
    pub columns: Map<Seq<char>, ColumnModel>,
}

/// What a field holds for a row.
pub open spec fn cell(m: StoreModel, field: Seq<char>, row: int) -> Option<ValueModel> {
    if m.columns.dom().contains(field) && 0 <= row < m.columns[field].cells.len() {
        m.columns[field].cells[row]
    } else {
        None
    }
}

/// How many of the first `n` are set.
pub open spec fn tally(s: Seq<bool>) -> nat
    decreases s.len(),
{
    if s.len() == 0 {
        0
    } else {
        tally(s.drop_last()) + (if s.last() {
            1nat
        } else {
            0
        })
    }
}

proof fn lemma_tally_update(s: Seq<bool>, i: int)
    requires
        0 <= i < s.len(),
        !s[i],
    ensures
        tally(s.update(i, true)) == tally(s) + 1,
        tally(s) < s.len(),
    decreases s.len(),
{
    let rest = s.drop_last();
    lemma_tally_bound(rest);
    if i == s.len() - 1 {
        assert(s.update(i, true).drop_last() =~= rest);
    } else {
        lemma_tally_update(rest, i);
        assert(s.update(i, true).drop_last() =~= rest.update(i, true));
    }
}

proof fn lemma_tally_bound(s: Seq<bool>)
    ensures
        tally(s) <= s.len(),
    decreases s.len(),
{
    if s.len() > 0 {
        lemma_tally_bound(s.drop_last());
    }
}

/// Whether the parts of a store fit together.
pub open spec fn coherent(m: StoreModel) -> bool {
    &&& m.dead.len() == m.ids.len()
    &&& forall|name: Seq<char>| #[trigger]
        m.columns.dom().contains(name) ==> m.columns[name].cells.len() == m.ids.len()
    &&& forall|id: u64| #[trigger]
        m.rows.dom().contains(id) ==> m.rows[id] < m.ids.len() && m.ids[m.rows[id] as int] == id
            && !m.dead[m.rows[id] as int]
}

/// The store that holds nothing.
pub open spec fn empty_store() -> StoreModel {
    StoreModel { ids: Seq::empty(), dead: Seq::empty(), rows: Map::empty(), columns: Map::empty() }
}

/// What a row of a record puts at the end of a column: a field that appears late
/// has nothing for the rows before.
pub open spec fn extended(c: Option<ColumnModel>, v: Option<ValueModel>, rows: nat) -> ColumnModel {
    with_cell(
        match c {
            Some(c) => c,
            None => begun(v, rows),
        },
        v,
    )
}

pub open spec fn column_of(m: StoreModel, name: Seq<char>) -> Option<ColumnModel> {
    if m.columns.dom().contains(name) {
        Some(m.columns[name])
    } else {
        None
    }
}

/// Whether a field's column passed over a value not of its type.
pub open spec fn lossy(m: StoreModel, name: Seq<char>) -> bool {
    column_of(m, name) matches Some(c) && c.lost
}

/// Whether a field's column passed over any value, a null included.
pub open spec fn inexact(m: StoreModel, name: Seq<char>) -> bool {
    column_of(m, name) matches Some(c) && (c.lost || c.blanked)
}

/// A store with a row more.
pub open spec fn appended(m: StoreModel, id: u64, r: RecordModel) -> StoreModel {
    StoreModel {
        ids: m.ids.push(id),
        dead: m.dead.push(false),
        rows: m.rows.insert(id, m.ids.len() as usize),
        columns: Map::new(
            |name: Seq<char>| m.columns.dom().contains(name) || field_of(r, name) is Some,
            |name: Seq<char>| extended(column_of(m, name), field_of(r, name), m.ids.len()),
        ),
    }
}

/// A store of rows, appended in turn.
pub open spec fn columns_of(rows: RowsModel) -> StoreModel
    decreases rows.len(),
{
    if rows.len() == 0 {
        empty_store()
    } else {
        appended(columns_of(rows.drop_last()), rows.last().0, rows.last().1)
    }
}

/// A store with the row of an id marked dead, if the id is found.
pub open spec fn buried(m: StoreModel, id: u64) -> StoreModel {
    if m.rows.dom().contains(id) {
        StoreModel {
            dead: m.dead.update(m.rows[id] as int, true),
            rows: m.rows.remove(id),
            ..m
        }
    } else {
        m
    }
}

/// A value of its column's own type reads back as it was written, and so does
/// any value of a column made for anything.
pub proof fn a_value_of_its_columns_type_reads_back(
    m: StoreModel,
    id: u64,
    r: RecordModel,
    name: Seq<char>,
)
    requires
        coherent(m),
        match (column_of(m, name), field_of(r, name)) {
            (Some(c), Some(v)) => c.kind == kind_for(v) || c.kind == Kind::Other,
            _ => true,
        },
    ensures
        cell(appended(m, id, r), name, m.ids.len() as int) == field_of(r, name),
{
}

/// A row appended changes no row that is there.
pub proof fn earlier_rows_are_kept(m: StoreModel, id: u64, r: RecordModel, name: Seq<char>, row: int)
    requires
        coherent(m),
        0 <= row < m.ids.len(),
    ensures
        cell(appended(m, id, r), name, row) == cell(m, name, row),
        appended(m, id, r).ids[row] == m.ids[row],
        appended(m, id, r).dead[row] == m.dead[row],
{
}

/// What a copy whose columns have these names costs to keep.
pub open spec fn copy_cost(m: StoreModel, names: Seq<Seq<char>>) -> usize {
    capped(
        capped(
            capped(columns_cost(m, names) + capped(m.ids.len() as int * 8)) + capped(
                m.rows.dom().len() as int * 24,
            ),
        ) + m.ids.len() as int,
    )
}

impl View for ColumnStore {
    type V = StoreModel;

    closed spec fn view(&self) -> StoreModel {
        StoreModel {
            ids: self.ids@,
            dead: self.dead@,
            rows: self.row_of@,
            columns: Map::new(
                |name: Seq<char>| self.columns.of(name) is Some,
                |name: Seq<char>| self.columns.of(name)->Some_0.model(),
            ),
        }
    }
}

impl ColumnStore {
    /// The fields that have a column, in order.
    pub closed spec fn names(&self) -> Seq<Seq<char>> {
        self.columns.entries().map_values(|e: (Seq<char>, Column)| e.0)
    }

    pub closed spec fn wf(&self) -> bool {
        &&& coherent(self@)
        &&& self.columns.wf()
        &&& forall|name: Seq<char>|
            (#[trigger] self.columns.of(name)) matches Some(c) ==> c.wf()
        &&& self.dead_count == tally(self.dead@)
    }

    /// What every store satisfies.
    pub proof fn a_store_is_coherent(&self)
        requires
            self.wf(),
        ensures
            coherent(self@),
            strictly_sorted(self.names()),
            forall|name: Seq<char>|
                self.names().contains(name) <==> #[trigger] self@.columns.dom().contains(name),
    {
        let e = self.columns.entries();
        let names = self.names();
        assert forall|i: int, j: int|
            #![trigger names[i], names[j]]
            0 <= i < j < names.len() implies crate::text::text_before(names[i], names[j]) by {
            assert(names[i] == e[i].0 && names[j] == e[j].0);
        }
        assert forall|name: Seq<char>|
            self.names().contains(name) <==> #[trigger] self@.columns.dom().contains(name) by {
            if names.contains(name) {
                let i = choose|i: int| 0 <= i < names.len() && names[i] == name;
                assert(e[i].0 == name);
                lemma_named_at(e, i);
            }
            if find(e, name) is Some {
                let i = lemma_find_some(e, name);
                assert(names[i] == name);
            }
        }
    }

    fn empty() -> (s: ColumnStore)
        ensures
            s.wf(),
            s@ == empty_store(),
    {
        let s = ColumnStore {
            ids: Vec::new(),
            row_of: HashMap::new(),
            columns: StrMap::new(),
            dead: Vec::new(),
            dead_count: 0,
        };
        assert(s@ =~= empty_store());
        s
    }

    /// Build from the authoritative representation.
    pub fn build(rows: &Rows) -> (s: ColumnStore)
        ensures
            s.wf(),
            s@ == columns_of(rows_model(rows@)),
    {
        let ghost all = rows_model(rows@);
        let mut s = ColumnStore::empty();
        let mut i: usize = 0;
        assert(all.take(0) =~= Seq::empty());
        while i < rows.len()
            invariant
                i <= rows.len(),
                all == rows_model(rows@),
                s.wf(),
                s@ == columns_of(all.take(i as int)),
            decreases rows.len() - i,
        {
            s.append_row(rows[i].0, &rows[i].1);
            assert(all.take(i + 1).drop_last() =~= all.take(i as int));
            i += 1;
        }
        assert(all.take(i as int) =~= all);
        s
    }

    /// Append a row. Columns are contiguous, so a row is never changed in place.
    pub fn append_row(&mut self, id: u64, rec: &Record)
        requires
            old(self).wf(),
        ensures
            final(self).wf(),
            final(self)@ == appended(old(self)@, id, rec.model()),
    {
        let row: usize = self.ids.len();
        let ghost m = self@;
        let ghost r = rec.model();
        self.ids.push(id);
        self.row_of.insert(id, row);
        self.dead.push(false);
        assert(self.dead@.drop_last() =~= m.dead);
        proof {
            use_type_invariant(rec);
        }
        let mut i: usize = 0;
        assert(r.take(0) =~= Seq::empty());
        assert forall|name: Seq<char>|
            part_appended(self.columns.of(name), m, r, 0, name) by {
            assert(m.columns.dom().contains(name) == (old(self).columns.of(name) is Some));
        }
        while i < rec.len()
            invariant
                i <= r.len(),
                r == rec.model(),
                crate::record::named_in_order(r),
                coherent(m),
                m.ids.len() == row,
                self.columns.wf(),
                self.ids@ == m.ids.push(id),
                self.dead@ == m.dead.push(false),
                self.row_of@ == m.rows.insert(id, row),
                self.dead_count == tally(self.dead@),
                forall|name: Seq<char>|
                    part_appended(self.columns.of(name), m, r, i as int, name),
            decreases r.len() - i,
        {
            let name = rec.name_at(i);
            let value = rec.value_at(i);
            let ghost before = self.columns;
            proof {
                assert(part_appended(self.columns.of(name@), m, r, i as int, name@));
                lemma_first_named(r, i as int);
            }
            match self.columns.position(name) {
                Some(k) => {
                    self.columns.pairs[k].1.push(value);
                    proof {
                        let e = before.entries();
                        let c = self.columns.pairs@[k as int].1;
                        assert(self.columns.entries() =~= e.update(k as int, (e[k as int].0, c)));
                        lemma_revalued(e, k as int, c);
                    }
                },
                None => {
                    let mut c = Column::for_value(value, row);
                    c.push(value);
                    self.columns.put(name, c);
                },
            }
            proof {
                assert forall|other: Seq<char>| #[trigger]
                    part_appended(self.columns.of(other), m, r, i + 1, other) by {
                    assert(part_appended(before.of(other), m, r, i as int, other));
                    lemma_next_field(r, i as int, other);
                }
            }
            i += 1;
        }
        assert(r.take(i as int) =~= r);
        let ghost mid = self.columns;
        let mut k: usize = 0;
        while k < self.columns.pairs.len()
            invariant
                k <= self.columns.pairs@.len(),
                coherent(m),
                m.ids.len() == row,
                mid.wf(),
                forall|name: Seq<char>|
                    part_appended(mid.of(name), m, r, r.len() as int, name),
                r.take(r.len() as int) == r,
                self.columns.pairs@.len() == mid.pairs@.len(),
                self.ids@ == m.ids.push(id),
                self.dead@ == m.dead.push(false),
                self.row_of@ == m.rows.insert(id, row),
                self.dead_count == tally(self.dead@),
                forall|j: int|
                    0 <= j < k ==> {
                        let p = #[trigger] self.columns.pairs@[j];
                        &&& p.0@ == mid.pairs@[j].0@
                        &&& p.1.wf()
                        &&& p.1.model() == extended(
                            column_of(m, p.0@),
                            field_of(r, p.0@),
                            row as nat,
                        )
                    },
                forall|j: int|
                    k <= j < mid.pairs@.len() ==> #[trigger] self.columns.pairs@[j]
                        == mid.pairs@[j],
            decreases self.columns.pairs.len() - k,
        {
            proof {
                lemma_named_at(mid.entries(), k as int);
                let name = mid.entries()[k as int].0;
                assert(part_appended(mid.of(name), m, r, r.len() as int, name));
            }
            if self.columns.pairs[k].1.held.len() == row {
                self.columns.pairs[k].1.push_null();
            }
            k += 1;
        }
        proof {
            let e = self.columns.entries();
            let f = mid.entries();
            assert forall|a: int, b: int|
                #![trigger e[a], e[b]]
                0 <= a < b < e.len() implies crate::text::text_before(e[a].0, e[b].0) by {
                assert(e[a].0 == f[a].0 && e[b].0 == f[b].0);
            }
            assert forall|name: Seq<char>|
                match #[trigger] self.columns.of(name) {
                    Some(c) => c.wf() && c.model() == extended(
                        column_of(m, name),
                        field_of(r, name),
                        row as nat,
                    ) && (m.columns.dom().contains(name) || field_of(r, name) is Some),
                    None => column_of(m, name) is None && field_of(r, name) is None,
                } by {
                assert(part_appended(mid.of(name), m, r, r.len() as int, name));
                if find(e, name) is Some {
                    let j = lemma_find_some(e, name);
                    lemma_named_at(f, j);
                    assert(f[j].0 == name);
                } else if find(f, name) is Some {
                    let j = lemma_find_some(f, name);
                    lemma_named_at(e, j);
                    assert(e[j].0 == name);
                }
            }
            assert(self@ =~= appended(m, id, r));
        }
    }
}

/// Where a column stands when the first `i` fields of a record have been put in.
spec fn part_appended(
    c: Option<Column>,
    m: StoreModel,
    r: RecordModel,
    i: int,
    name: Seq<char>,
) -> bool {
    match c {
        Some(c) => c.wf() && if field_of(r.take(i), name) is Some {
            c.model() == extended(column_of(m, name), field_of(r, name), m.ids.len())
        } else {
            column_of(m, name) == Some(c.model())
        },
        None => column_of(m, name) is None && field_of(r.take(i), name) is None,
    }
}

/// The fields before one do not have its name.
proof fn lemma_first_named(r: RecordModel, i: int)
    requires
        crate::record::named_in_order(r),
        0 <= i < r.len(),
    ensures
        field_of(r.take(i), r[i].0) is None,
        field_of(r, r[i].0) == Some(r[i].1),
{
    let name = r[i].0;
    assert forall|k: int| 0 <= k < i implies (#[trigger] r[k]).0 != name by {
        crate::text::lemma_text_before_total(r[k].0, r[i].0);
    }
    assert forall|k: int| 0 <= k < i implies (#[trigger] r.take(i)[k]).0 != name by {
        assert(r.take(i)[k] == r[k]);
    }
    crate::record::lemma_field_is_found(r.take(i), name);
    crate::record::lemma_field_is_found(r, name);
    lemma_find_absent(r.take(i), name);
    crate::assoc::lemma_find_at(r, name, i);
}

/// One field more is found under its own name and no other.
proof fn lemma_next_field(r: RecordModel, i: int, name: Seq<char>)
    requires
        crate::record::named_in_order(r),
        0 <= i < r.len(),
    ensures
        r[i].0 != name ==> field_of(r.take(i + 1), name) == field_of(r.take(i), name),
        r[i].0 == name ==> field_of(r.take(i + 1), name) == Some(r[i].1),
{
    let next = r.take(i + 1);
    crate::record::lemma_field_is_found(r.take(i), name);
    crate::record::lemma_field_is_found(next, name);
    assert(next =~= r.take(i).insert(i, r[i]));
    if r[i].0 == name {
        assert forall|k: int| 0 <= k < i implies (#[trigger] next[k]).0 != name by {
            assert(next[k] == r[k]);
            crate::text::lemma_text_before_total(r[k].0, r[i].0);
        }
        crate::assoc::lemma_find_at(next, name, i);
    } else {
        crate::assoc::lemma_find_insert(r.take(i), i, r[i], name);
    }
}

// -- reading ------------------------------------------------------------------

/// The live rows among the first `n`, by their ids.
pub open spec fn live_spots(m: StoreModel, n: int) -> Seq<Spot>
    decreases n,
{
    if n <= 0 {
        Seq::empty()
    } else if m.dead[n - 1] {
        live_spots(m, n - 1)
    } else {
        live_spots(m, n - 1).push((m.ids[n - 1], (n - 1) as usize))
    }
}

/// Whether spots are the live rows of a store in the order of their ids.
pub open spec fn in_id_order(m: StoreModel, o: Seq<Spot>) -> bool {
    &&& spots_ordered(o)
    &&& o.to_multiset() == live_spots(m, m.ids.len() as int).to_multiset()
}

/// The fields asked for, by what their names say.
pub open spec fn names_in(fields: Seq<&str>) -> Seq<Seq<char>> {
    fields.map_values(|f: &str| f@)
}

/// Whether a record shows the fields asked for of a row, and nothing else.
pub open spec fn shows(m: StoreModel, fields: Seq<Seq<char>>, row: int, r: RecordModel) -> bool {
    forall|name: Seq<char>| #[trigger]
        field_of(r, name) == if fields.contains(name) {
            cell(m, name, row)
        } else {
            None
        }
}

/// What the live ones among the first `n` rows hold in a field.
pub open spec fn present(m: StoreModel, field: Seq<char>, n: int) -> Seq<ValueModel>
    decreases n,
{
    if n <= 0 {
        Seq::empty()
    } else {
        let before = present(m, field, n - 1);
        match cell(m, field, n - 1) {
            Some(v) => if m.dead[n - 1] {
                before
            } else {
                before.push(v)
            },
            None => before,
        }
    }
}

/// What columns cost, by the names of their fields.
pub open spec fn columns_cost(m: StoreModel, names: Seq<Seq<char>>) -> usize
    decreases names.len(),
{
    if names.len() == 0 {
        0
    } else {
        capped(columns_cost(m, names.drop_last()) + column_cost(m.columns[names.last()]))
    }
}

/// Live spots are live rows.
pub proof fn lemma_live_spots(m: StoreModel, n: int)
    requires
        0 <= n <= m.ids.len(),
        m.dead.len() == m.ids.len(),
        m.ids.len() <= usize::MAX,
    ensures
        live_spots(m, n).len() + tally(m.dead.take(n)) == n,
        forall|k: int|
            0 <= k < live_spots(m, n).len() ==> {
                let s = #[trigger] live_spots(m, n)[k];
                s.1 < n && !m.dead[s.1 as int] && s.0 == m.ids[s.1 as int]
            },
        forall|row: int|
            0 <= row < n && !m.dead[row] ==> live_spots(m, n).contains(
                (#[trigger] m.ids[row], row as usize),
            ),
    decreases n,
{
    if n > 0 {
        lemma_live_spots(m, n - 1);
        assert(m.dead.take(n).drop_last() =~= m.dead.take(n - 1));
        let s = live_spots(m, n - 1);
        let t = live_spots(m, n);
        assert forall|row: int| 0 <= row < n && !m.dead[row] implies t.contains(
            (#[trigger] m.ids[row], row as usize),
        ) by {
            if row < n - 1 {
                let k = s.index_of((m.ids[row], row as usize));
                assert(s.contains((m.ids[row], row as usize)));
                assert(t[k] == s[k]);
            } else {
                assert(t[t.len() - 1] == (m.ids[row], row as usize));
            }
        }
    } else {
        assert(m.dead.take(0) =~= Seq::empty());
    }
}

impl ColumnStore {
    /// How many rows are live.
    pub fn row_count(&self) -> (n: usize)
        requires
            self.wf(),
        ensures
            n == live_spots(self@, self@.ids.len() as int).len(),
    {
        let all: usize = self.ids.len();
        proof {
            lemma_live_spots(self@, self@.ids.len() as int);
            assert(self@.dead.take(self@.ids.len() as int) =~= self@.dead);
        }
        all - self.dead_count
    }

    pub fn is_empty(&self) -> (r: bool)
        requires
            self.wf(),
        ensures
            r == (live_spots(self@, self@.ids.len() as int).len() == 0),
    {
        self.row_count() == 0
    }

    /// The fields that have a column, in order.
    pub fn fields(&self) -> (out: Vec<&str>)
        requires
            self.wf(),
        ensures
            out@.map_values(|s: &str| s@) == self.names(),
    {
        let mut out: Vec<&str> = Vec::new();
        let mut i: usize = 0;
        while i < self.columns.pairs.len()
            invariant
                i <= self.columns.pairs@.len(),
                out@.len() == i,
                self.names().len() == self.columns.pairs@.len(),
                forall|k: int| 0 <= k < i ==> (#[trigger] out@[k])@ == self.names()[k],
            decreases self.columns.pairs.len() - i,
        {
            out.push(self.columns.pairs[i].0.as_str());
            i += 1;
        }
        assert(out@.map_values(|s: &str| s@) =~= self.names());
        out
    }

    fn spots(&self) -> (out: Vec<Spot>)
        requires
            self.wf(),
        ensures
            out@ == live_spots(self@, self@.ids.len() as int),
    {
        let ghost m = self@;
        let mut out: Vec<Spot> = Vec::new();
        let mut row: usize = 0;
        while row < self.ids.len()
            invariant
                row <= self.ids@.len(),
                m == self@,
                coherent(m),
                out@ == live_spots(m, row as int),
            decreases self.ids.len() - row,
        {
            if !self.dead[row] {
                out.push((self.ids[row], row));
            }
            row += 1;
        }
        out
    }

    /// How many rows there are, dead ones counted.
    pub fn total_rows(&self) -> (n: usize)
        ensures
            n == self@.ids.len(),
    {
        self.ids.len()
    }

    /// The id of a row, if the row is live.
    pub fn live_at(&self, row: usize) -> (r: Option<u64>)
        requires
            self.wf(),
            row < self@.ids.len(),
        ensures
            r == if self@.dead[row as int] {
                None
            } else {
                Some(self@.ids[row as int])
            },
    {
        if self.dead[row] {
            None
        } else {
            Some(self.ids[row])
        }
    }

    /// The ids of the live rows, ascending.
    pub fn live_ids(&self) -> (out: Vec<u64>)
        requires
            self.wf(),
        ensures
            exists|o: Seq<Spot>| #[trigger]
                in_id_order(self@, o) && out@ == o.map_values(|s: Spot| s.0),
    {
        let spots = sort_spots(&self.spots());
        let mut out: Vec<u64> = Vec::new();
        let mut i: usize = 0;
        while i < spots.len()
            invariant
                i <= spots@.len(),
                out@ =~= spots@.take(i as int).map_values(|s: Spot| s.0),
            decreases spots.len() - i,
        {
            out.push(spots[i].0);
            i += 1;
        }
        assert(spots@.take(i as int) =~= spots@);
        assert(in_id_order(self@, spots@));
        out
    }

    /// Distinct values in a field, where the encoding knows.
    pub fn cardinality(&self, field: &str) -> (r: Option<usize>)
        requires
            self.wf(),
        ensures
            match column_of(self@, field@) {
                Some(c) => if c.kind == Kind::Text {
                    r matches Some(n) && n == vocabulary(c.cells).len()
                } else {
                    r is None
                },
                None => r is None,
            },
    {
        match self.columns.get(field) {
            None => None,
            Some(c) => match &c.held {
                Cells::Dict { dict, .. } => {
                    proof {
                        assert(self.columns.of(field@) is Some);
                        assert(texts(dict@).len() == dict@.len());
                    }
                    Some(dict.len())
                },
                _ => None,
            },
        }
    }

    /// Whether a field's column passed over a value not of its type.
    pub fn lost_values(&self, field: &str) -> (r: bool)
        requires
            self.wf(),
        ensures
            r == lossy(self@, field@),
    {
        match self.columns.get(field) {
            None => false,
            Some(c) => c.lost,
        }
    }

    /// Whether a field's column passed over any value, a null included.
    pub fn passed_over_values(&self, field: &str) -> (r: bool)
        requires
            self.wf(),
        ensures
            r == inexact(self@, field@),
    {
        match self.columns.get(field) {
            None => false,
            Some(c) => c.lost || c.blanked,
        }
    }

    /// What the copy costs to keep.
    pub fn memory_bytes(&self) -> (n: usize)
        requires
            self.wf(),
        ensures
            n == copy_cost(self@, self.names()),
    {
        let ghost names = self.names();
        let mut total: usize = 0;
        let mut i: usize = 0;
        assert(names.take(0) =~= Seq::empty());
        while i < self.columns.pairs.len()
            invariant
                i <= self.columns.pairs@.len(),
                self.wf(),
                names == self.names(),
                names.len() == self.columns.pairs@.len(),
                total == columns_cost(self@, names.take(i as int)),
            decreases self.columns.pairs.len() - i,
        {
            proof {
                lemma_named_at(self.columns.entries(), i as int);
                assert(names.take(i + 1).drop_last() =~= names.take(i as int));
                assert(names.take(i + 1).last() == self.columns.entries()[i as int].0);
                assert(self.columns.of(names[i as int]) is Some);
                assert(self@.columns[names[i as int]] == self.columns.pairs@[i as int].1.model());
            }
            total = add_capped(total, self.columns.pairs[i].1.held.memory_bytes());
            i += 1;
        }
        assert(names.take(i as int) =~= names);
        let ids = mul_capped(self.ids.len(), 8);
        let places = mul_capped(self.row_of.len(), 24);
        add_capped(add_capped(add_capped(total, ids), places), self.dead.len())
    }

    /// Dead rows out of all rows. A large part means a rebuild would help.
    pub fn dead_fraction(&self) -> (r: (usize, usize))
        requires
            self.wf(),
        ensures
            r.0 == tally(self@.dead),
            r.1 == self@.ids.len(),
    {
        (self.dead_count, self.ids.len())
    }

    /// Mark the row of an id dead, if the id is found.
    pub fn mark_dead(&mut self, id: u64)
        requires
            old(self).wf(),
        ensures
            final(self).wf(),
            final(self)@ == buried(old(self)@, id),
    {
        let ghost m = self@;
        let found: Option<usize> = match self.row_of.get(&id) {
            Some(row) => Some(*row),
            None => None,
        };
        match found {
            Some(row) => {
                proof {
                    assert(m.rows.dom().contains(id) && m.rows[id] == row);
                    lemma_tally_update(m.dead, row as int);
                }
                let all: usize = self.dead.len();
                assert(tally(m.dead) < all);
                self.dead.set(row, true);
                self.dead_count += 1;
                self.row_of.remove(&id);
                assert(self@ =~= buried(m, id));
                proof {
                    assert forall|other: u64| #[trigger] self@.rows.dom().contains(other) implies
                        !self@.dead[self@.rows[other] as int] by {
                        assert(m.rows.dom().contains(other));
                        assert(m.ids[m.rows[other] as int] == other);
                    }
                }
            },
            None => {
                assert(self@ =~= buried(m, id));
            },
        }
    }

    /// The record with one field more of a row, if the row has it.
    fn show(&self, row: usize, field: &str, rec: &mut Record, Ghost(shown): Ghost<Seq<Seq<char>>>)
        requires
            self.wf(),
            row < self@.ids.len(),
            shows(self@, shown, row as int, old(rec).model()),
        ensures
            shows(self@, shown.push(field@), row as int, final(rec).model()),
    {
        let ghost before = *rec;
        match self.columns.get(field) {
            Some(c) => {
                assert(self.columns.of(field@) is Some);
                assert(self@.columns.dom().contains(field@));
                assert(cell(self@, field@, row as int) == c.held.cells()[row as int]);
                match c.held.get(row) {
                    Some(v) => {
                        rec.set(field, v);
                    },
                    None => {},
                }
            },
            None => {
                assert(!self@.columns.dom().contains(field@));
            },
        }
        proof {
            let next = shown.push(field@);
            assert(next[shown.len() as int] == field@);
            assert forall|name: Seq<char>| #[trigger] field_of(rec.model(), name)
                == if next.contains(name) {
                cell(self@, name, row as int)
            } else {
                None
            } by {
                assert(rec.field(name) == field_of(rec.model(), name));
                assert(before.field(name) == field_of(before.model(), name));
                if name != field@ {
                    if next.contains(name) {
                        let k = choose|k: int| 0 <= k < next.len() && next[k] == name;
                        assert(shown[k] == name);
                    }
                    if shown.contains(name) {
                        let k = choose|k: int| 0 <= k < shown.len() && shown[k] == name;
                        assert(next[k] == name);
                    }
                }
            }
        }
    }

    fn shown_all(&self, row: usize, fields: &Vec<String>) -> (rec: Record)
        requires
            self.wf(),
            row < self@.ids.len(),
        ensures
            shows(self@, texts(fields@), row as int, rec.model()),
    {
        let ghost names = texts(fields@);
        let mut rec = Record::new();
        let mut i: usize = 0;
        assert(names.take(0) =~= Seq::empty());
        while i < fields.len()
            invariant
                i <= fields@.len(),
                self.wf(),
                row < self@.ids.len(),
                names == texts(fields@),
                shows(self@, names.take(i as int), row as int, rec.model()),
            decreases fields.len() - i,
        {
            self.show(row, fields[i].as_str(), &mut rec, Ghost(names.take(i as int)));
            assert(names.take(i + 1) =~= names.take(i as int).push(fields@[i as int]@));
            i += 1;
        }
        assert(names.take(i as int) =~= names);
        rec
    }

    fn shown(&self, row: usize, fields: &[&str]) -> (rec: Record)
        requires
            self.wf(),
            row < self@.ids.len(),
        ensures
            shows(self@, names_in(fields@), row as int, rec.model()),
    {
        let ghost names = names_in(fields@);
        let mut rec = Record::new();
        let mut i: usize = 0;
        assert(names.take(0) =~= Seq::empty());
        while i < fields.len()
            invariant
                i <= fields@.len(),
                self.wf(),
                row < self@.ids.len(),
                names == names_in(fields@),
                shows(self@, names.take(i as int), row as int, rec.model()),
            decreases fields.len() - i,
        {
            self.show(row, fields[i], &mut rec, Ghost(names.take(i as int)));
            assert(names.take(i + 1) =~= names.take(i as int).push(fields@[i as int]@));
            i += 1;
        }
        assert(names.take(i as int) =~= names);
        rec
    }

    /// Read only the named fields, in record-id order.
    pub fn project(&self, fields: &[&str]) -> (out: Rows)
        requires
            self.wf(),
        ensures
            exists|o: Seq<Spot>| #[trigger]
                in_id_order(self@, o) && out@.len() == o.len() && forall|k: int|
                    0 <= k < o.len() ==> (#[trigger] out@[k]).0 == o[k].0 && shows(
                        self@,
                        names_in(fields@),
                        o[k].1 as int,
                        out@[k].1.model(),
                    ),
    {
        let ghost m = self@;
        let all: usize = self.ids.len();
        let spots = sort_spots(&self.spots());
        assert(in_id_order(m, spots@));
        let mut out: Rows = Vec::new();
        let mut i: usize = 0;
        while i < spots.len()
            invariant
                i <= spots@.len(),
                self.wf(),
                m == self@,
                m.ids.len() == all,
                in_id_order(m, spots@),
                out@.len() == i,
                forall|k: int|
                    0 <= k < i ==> (#[trigger] out@[k]).0 == spots@[k].0 && shows(
                        m,
                        names_in(fields@),
                        spots@[k].1 as int,
                        out@[k].1.model(),
                    ),
            decreases spots.len() - i,
        {
            let s = spots[i];
            proof {
                lemma_sorted_is_live(m, spots@, i as int);
            }
            out.push((s.0, self.shown(s.1, fields)));
            i += 1;
        }
        out
    }

    /// Every value of a field, of the live rows that have it, in row order.
    pub fn column_values(&self, field: &str) -> (r: Option<Vec<Value>>)
        requires
            self.wf(),
        ensures
            match column_of(self@, field@) {
                Some(_) => r matches Some(vs) && models(vs@) == present(
                    self@,
                    field@,
                    self@.ids.len() as int,
                ),
                None => r is None,
            },
    {
        let ghost m = self@;
        match self.columns.get(field) {
            None => {
                assert(!m.columns.dom().contains(field@));
                None
            },
            Some(c) => {
                assert(self.columns.of(field@) is Some);
                assert(m.columns.dom().contains(field@) && m.columns[field@] == c.model());
                let mut out: Vec<Value> = Vec::new();
                let mut row: usize = 0;
                assert(models(out@) =~= Seq::empty());
                while row < self.ids.len()
                    invariant
                        row <= self.ids@.len(),
                        m == self@,
                        coherent(m),
                        c.wf(),
                        m.columns.dom().contains(field@),
                        m.columns[field@] == c.model(),
                        models(out@) == present(m, field@, row as int),
                    decreases self.ids.len() - row,
                {
                    if !self.dead[row] {
                        match c.held.get(row) {
                            Some(v) => {
                                let ghost before = models(out@);
                                out.push(v);
                                assert(models(out@) =~= before.push(v.model()));
                            },
                            None => {},
                        }
                    }
                    row += 1;
                }
                Some(out)
            },
        }
    }

    /// The named fields of one id, if its row is there.
    pub fn get(&self, id: u64, fields: &[&str]) -> (r: Option<Record>)
        requires
            self.wf(),
        ensures
            if self@.rows.dom().contains(id) {
                r matches Some(rec) && shows(
                    self@,
                    names_in(fields@),
                    self@.rows[id] as int,
                    rec.model(),
                )
            } else {
                r is None
            },
    {
        match self.row_of.get(&id) {
            Some(row) => {
                assert(self@.rows.dom().contains(id));
                Some(self.shown(*row, fields))
            },
            None => None,
        }
    }
}

/// What is sorted is what was there.
proof fn lemma_sorted_is_live(m: StoreModel, o: Seq<Spot>, i: int)
    requires
        coherent(m),
        m.ids.len() <= usize::MAX,
        in_id_order(m, o),
        0 <= i < o.len(),
    ensures
        o[i].1 < m.ids.len(),
{
    let live = live_spots(m, m.ids.len() as int);
    lemma_live_spots(m, m.ids.len() as int);
    o.to_multiset_ensures();
    live.to_multiset_ensures();
    assert(o.contains(o[i]));
    assert(o.to_multiset().count(o[i]) > 0);
    assert(live.contains(o[i]));
    let k = choose|k: int| 0 <= k < live.len() && live[k] == o[i];
    assert(live[k].1 < m.ids.len());
}

// -- the best rows of a field -------------------------------------------------

/// One row's candidacy: what the key column holds for it, and where it stands.
pub type Rank = (Option<ValueModel>, Spot);

/// The order of keys: by value, an absent one last, the other way round where
/// the sort is descending.
pub open spec fn key_first(a: Option<ValueModel>, b: Option<ValueModel>, descending: bool) -> bool {
    let (x, y) = if descending {
        (b, a)
    } else {
        (a, b)
    };
    match (x, y) {
        (Some(v), Some(w)) => value_before(v, w),
        (Some(_), None) => true,
        (None, _) => false,
    }
}

/// The order of a sort by one key: keys first, and ids ascending between equal
/// keys whichever way the sort goes.
pub open spec fn rank_before(a: Rank, b: Rank, descending: bool) -> bool {
    key_first(a.0, b.0, descending) || (a.0 == b.0 && spot_before(a.1, b.1))
}

proof fn lemma_rank_order(a: Rank, b: Rank, c: Rank, descending: bool)
    ensures
        rank_before(a, b, descending) || rank_before(b, a, descending) || a == b,
        !(rank_before(a, b, descending) && rank_before(b, a, descending)),
        !rank_before(a, a, descending),
        rank_before(a, b, descending) && rank_before(b, c, descending) ==> rank_before(
            a,
            c,
            descending,
        ),
{
    if a.0 is Some && b.0 is Some {
        lemma_value_before_total(a.0->Some_0, b.0->Some_0);
    }
    if b.0 is Some && c.0 is Some {
        lemma_value_before_total(b.0->Some_0, c.0->Some_0);
    }
    if a.0 is Some {
        lemma_value_before_total(a.0->Some_0, a.0->Some_0);
    }
    if a.0 is Some && b.0 is Some && c.0 is Some {
        let (x, y, z) = (a.0->Some_0, b.0->Some_0, c.0->Some_0);
        if value_before(x, y) && value_before(y, z) {
            lemma_value_before_transitive(x, y, z);
        }
        if value_before(z, y) && value_before(y, x) {
            lemma_value_before_transitive(z, y, x);
        }
    }
}

/// The candidacy of a live row.
pub open spec fn rank_of(m: StoreModel, field: Seq<char>, s: Spot) -> Rank {
    (cell(m, field, s.1 as int), s)
}

pub open spec fn best_first(m: StoreModel, field: Seq<char>, descending: bool, o: Seq<Spot>) -> bool {
    forall|i: int, j: int|
        #![trigger o[i], o[j]]
        0 <= i < j < o.len() ==> rank_before(
            rank_of(m, field, o[i]),
            rank_of(m, field, o[j]),
            descending,
        )
}

/// Whether spots are the first `k` of the live ones among the first `n` rows, in
/// the order of a sort by `field`: each is live, they stand in order, and a live
/// row that is not among them comes after all of them.
pub open spec fn are_best(
    m: StoreModel,
    field: Seq<char>,
    descending: bool,
    k: nat,
    n: int,
    o: Seq<Spot>,
) -> bool {
    let live = live_spots(m, n);
    &&& best_first(m, field, descending, o)
    &&& o.len() == if live.len() < k {
        live.len()
    } else {
        k
    }
    &&& forall|i: int| 0 <= i < o.len() ==> live.contains(#[trigger] o[i])
    &&& forall|i: int, s: Spot|
        #![trigger o[i], live.contains(s)]
        0 <= i < o.len() && live.contains(s) && !o.contains(s) ==> rank_before(
            rank_of(m, field, o[i]),
            rank_of(m, field, s),
            descending,
        )
}

struct Candidate {
    value: Option<Value>,
    spot: Spot,
}

impl Candidate {
    spec fn rank(&self) -> Rank {
        (
            match self.value {
                Some(v) => Some(v.model()),
                None => None,
            },
            self.spot,
        )
    }

    fn before(&self, other: &Candidate, descending: bool) -> (r: bool)
        ensures
            r == rank_before(self.rank(), other.rank(), descending),
    {
        let (less, more): (bool, bool) = match (&self.value, &other.value) {
            (Some(x), Some(y)) => {
                proof {
                    lemma_value_before_total(x.model(), y.model());
                }
                (x.before(y), y.before(x))
            },
            (Some(_), None) => (true, false),
            (None, Some(_)) => (false, true),
            (None, None) => (false, false),
        };
        let (first, last) = if descending {
            (more, less)
        } else {
            (less, more)
        };
        first || (!last && (self.spot.0 < other.spot.0 || (self.spot.0 == other.spot.0
            && self.spot.1 < other.spot.1)))
    }
}

spec fn spots_held(s: Seq<Candidate>) -> Seq<Spot> {
    s.map_values(|c: Candidate| c.spot)
}

spec fn ranked(m: StoreModel, field: Seq<char>, s: Seq<Candidate>) -> bool {
    forall|i: int| 0 <= i < s.len() ==> (#[trigger] s[i]).rank() == rank_of(m, field, s[i].spot)
}

/// Take a candidate in where it belongs, and let the worst go if there are more
/// than `k`.
fn take_in(
    held: &mut Vec<Candidate>,
    cand: Candidate,
    descending: bool,
    k: usize,
    Ghost(m): Ghost<StoreModel>,
    Ghost(field): Ghost<Seq<char>>,
    Ghost(row): Ghost<int>,
)
    requires
        k > 0,
        coherent(m),
        m.ids.len() <= usize::MAX,
        0 <= row < m.ids.len(),
        !m.dead[row],
        cand.rank() == rank_of(m, field, (m.ids[row], row as usize)),
        ranked(m, field, old(held)@),
        are_best(m, field, descending, k as nat, row, spots_held(old(held)@)),
    ensures
        ranked(m, field, final(held)@),
        are_best(m, field, descending, k as nat, row + 1, spots_held(final(held)@)),
{
    let ghost before = held@;
    let ghost bs = spots_held(before);
    let ghost new = cand.spot;
    let ghost live = live_spots(m, row);
    let ghost next = live_spots(m, row + 1);
    let mut at: usize = held.len();
    while at > 0 && cand.before(&held[at - 1], descending)
        invariant
            at <= held@.len(),
            held@ == before,
            bs == spots_held(before),
            ranked(m, field, before),
            cand.rank() == rank_of(m, field, new),
            forall|j: int|
                at <= j < bs.len() ==> rank_before(
                    rank_of(m, field, new),
                    rank_of(m, field, #[trigger] bs[j]),
                    descending,
                ),
        decreases at,
    {
        assert(before[at - 1].rank() == rank_of(m, field, bs[at - 1]));
        at -= 1;
    }
    proof {
        lemma_live_spots(m, row);
        assert(next =~= live.push(new));
        assert forall|j: int| 0 <= j < bs.len() implies bs[j] != new by {
            assert(live.contains(bs[j]));
        }
        assert forall|j: int| 0 <= j < at implies rank_before(
            rank_of(m, field, #[trigger] bs[j]),
            rank_of(m, field, new),
            descending,
        ) by {
            assert(before[at - 1].rank() == rank_of(m, field, bs[at - 1]));
            lemma_rank_order(
                rank_of(m, field, bs[at - 1]),
                rank_of(m, field, new),
                rank_of(m, field, new),
                descending,
            );
            if j < at - 1 {
                lemma_rank_order(
                    rank_of(m, field, bs[j]),
                    rank_of(m, field, bs[at - 1]),
                    rank_of(m, field, new),
                    descending,
                );
            }
        }
    }
    held.insert(at, cand);
    let ghost full = bs.insert(at as int, new);
    proof {
        assert(held@ =~= before.insert(at as int, cand));
        assert(spots_held(held@) =~= full);
        assert forall|i: int| 0 <= i < held@.len() implies (#[trigger] held@[i]).rank() == rank_of(
            m,
            field,
            held@[i].spot,
        ) by {
            if i < at {
                assert(held@[i] == before[i]);
            } else if i > at {
                assert(held@[i] == before[i - 1]);
            }
        }
        assert(best_first(m, field, descending, full)) by {
            assert forall|i: int, j: int|
                #![trigger full[i], full[j]]
                0 <= i < j < full.len() implies rank_before(
                rank_of(m, field, full[i]),
                rank_of(m, field, full[j]),
                descending,
            ) by {
                if j == at {
                    assert(full[i] == bs[i]);
                } else if i == at {
                    assert(full[j] == bs[j - 1]);
                } else {
                    let x = if i < at { i } else { i - 1 };
                    let y = if j < at { j } else { j - 1 };
                    assert(full[i] == bs[x] && full[j] == bs[y]);
                }
            }
        }
        assert forall|i: int| 0 <= i < full.len() implies next.contains(#[trigger] full[i]) by {
            if i == at {
                assert(next[live.len() as int] == new);
            } else {
                let x = if i < at { i } else { i - 1 };
                assert(full[i] == bs[x]);
                assert(live.contains(bs[x]));
                let q = choose|q: int| 0 <= q < live.len() && live[q] == bs[x];
                assert(next[q] == bs[x]);
            }
        }
        assert forall|s: Spot| #[trigger] next.contains(s) && !full.contains(s) implies {
            &&& live.contains(s)
            &&& !bs.contains(s)
        } by {
            let q = choose|q: int| 0 <= q < next.len() && next[q] == s;
            assert(full[at as int] == new);
            if q < live.len() {
                assert(live[q] == s);
            }
            if bs.contains(s) {
                let x = choose|x: int| 0 <= x < bs.len() && bs[x] == s;
                assert(full[if x < at { x } else { x + 1 }] == s);
            }
        }
        if live.len() >= k {
            assert(bs.len() == k);
        }
        assert forall|i: int, s: Spot|
            #![trigger full[i], next.contains(s)]
            0 <= i < full.len() && next.contains(s) && !full.contains(s) implies rank_before(
            rank_of(m, field, full[i]),
            rank_of(m, field, s),
            descending,
        ) || i == at by {
            assert(live.contains(s) && !bs.contains(s));
            if i != at {
                let x = if i < at { i } else { i - 1 };
                assert(full[i] == bs[x]);
            }
        }
        if live.len() < k {
            // Everything that is live is held.
            assert forall|s: Spot| live.contains(s) implies bs.contains(s) by {
                lemma_all_held(m, field, descending, row, bs, s);
            }
        }
    }
    if held.len() > k {
        let ghost whole = held@;
        let gone = held.pop();
        let ghost kept_spots = full.drop_last();
        proof {
            assert(held@ =~= whole.drop_last());
            assert(spots_held(held@) =~= kept_spots);
            assert(ranked(m, field, held@)) by {
                assert forall|i: int| 0 <= i < held@.len() implies (#[trigger] held@[i]).rank()
                    == rank_of(m, field, held@[i].spot) by {
                    assert(held@[i] == whole[i]);
                }
            }
            assert(bs.len() == k);
            let lost = full.last();
            assert forall|i: int, s: Spot|
                #![trigger kept_spots[i], next.contains(s)]
                0 <= i < kept_spots.len() && next.contains(s) && !kept_spots.contains(
                    s,
                ) implies rank_before(
                rank_of(m, field, kept_spots[i]),
                rank_of(m, field, s),
                descending,
            ) by {
                assert(kept_spots[i] == full[i]);
                let end = full.len() - 1;
                if s == lost {
                    assert(full[i] == kept_spots[i] && full[end] == lost);
                } else {
                    if full.contains(s) {
                        let x = choose|x: int| 0 <= x < full.len() && full[x] == s;
                        assert(x != end);
                        assert(kept_spots[x] == s);
                    }
                    assert(live.contains(s) && !bs.contains(s));
                    if i == at {
                        // The new one stands before the one that goes, which
                        // stands before `s`.
                        assert(at < end);
                        assert(full[end] == bs[end - 1]);
                        assert(full[at as int] == new);
                        assert(rank_before(
                            rank_of(m, field, full[i]),
                            rank_of(m, field, full[end]),
                            descending,
                        ));
                        lemma_rank_order(
                            rank_of(m, field, full[i]),
                            rank_of(m, field, full[end]),
                            rank_of(m, field, s),
                            descending,
                        );
                    } else {
                        assert(full[i] == bs[if i < at { i } else { i - 1 }]);
                    }
                }
            }
            assert forall|i: int| 0 <= i < kept_spots.len() implies next.contains(
                #[trigger] kept_spots[i],
            ) by {
                assert(kept_spots[i] == full[i]);
            }
            assert(best_first(m, field, descending, kept_spots)) by {
                assert forall|i: int, j: int|
                    #![trigger kept_spots[i], kept_spots[j]]
                    0 <= i < j < kept_spots.len() implies rank_before(
                    rank_of(m, field, kept_spots[i]),
                    rank_of(m, field, kept_spots[j]),
                    descending,
                ) by {
                    assert(kept_spots[i] == full[i] && kept_spots[j] == full[j]);
                }
            }
        }
    } else {
        proof {
            assert(live.len() < k);
            assert forall|s: Spot| next.contains(s) implies full.contains(s) by {
                if !full.contains(s) {
                    assert(live.contains(s) && !bs.contains(s));
                }
            }
        }
    }
}

proof fn lemma_all_held(
    m: StoreModel,
    field: Seq<char>,
    descending: bool,
    row: int,
    bs: Seq<Spot>,
    s: Spot,
)
    requires
        coherent(m),
        m.ids.len() <= usize::MAX,
        0 <= row <= m.ids.len(),
        best_first(m, field, descending, bs),
        bs.len() == live_spots(m, row).len(),
        forall|i: int| 0 <= i < bs.len() ==> live_spots(m, row).contains(#[trigger] bs[i]),
        live_spots(m, row).contains(s),
    ensures
        bs.contains(s),
{
    let live = live_spots(m, row);
    lemma_live_distinct(m, row);
    assert(bs.no_duplicates()) by {
        assert forall|i: int, j: int| 0 <= i < bs.len() && 0 <= j < bs.len() && i != j implies bs[i]
            != bs[j] by {
            if i < j {
                lemma_rank_order(
                    rank_of(m, field, bs[i]),
                    rank_of(m, field, bs[j]),
                    rank_of(m, field, bs[j]),
                    descending,
                );
            } else {
                lemma_rank_order(
                    rank_of(m, field, bs[j]),
                    rank_of(m, field, bs[i]),
                    rank_of(m, field, bs[i]),
                    descending,
                );
            }
        }
    }
    bs.unique_seq_to_set();
    live.unique_seq_to_set();
    assert(bs.to_set().subset_of(live.to_set())) by {
        assert forall|x: Spot| bs.to_set().contains(x) implies live.to_set().contains(x) by {
            let i = choose|i: int| 0 <= i < bs.len() && bs[i] == x;
            assert(live.contains(bs[i]));
        }
    }
    vstd::set_lib::lemma_subset_equality(bs.to_set(), live.to_set());
    assert(live.to_set().contains(s));
}

pub proof fn lemma_live_distinct(m: StoreModel, n: int)
    requires
        0 <= n <= m.ids.len(),
        m.dead.len() == m.ids.len(),
        m.ids.len() <= usize::MAX,
    ensures
        live_spots(m, n).no_duplicates(),
    decreases n,
{
    if n > 0 {
        lemma_live_distinct(m, n - 1);
        lemma_live_spots(m, n - 1);
    }
}

impl ColumnStore {
    /// The ids of the `k` rows that come first in a sort by `field`, in that
    /// order: by value and an absent one last where the sort is ascending, the other way
    /// round where it is descending, and ascending ids between equal values either way.
    /// Nothing where the store does not hold the field.
    pub fn topk_ids(&self, field: &str, descending: bool, k: usize) -> (r: Option<Vec<u64>>)
        requires
            self.wf(),
        ensures
            match column_of(self@, field@) {
                Some(_) => r matches Some(ids) && exists|o: Seq<Spot>| #[trigger]
                    are_best(
                        self@,
                        field@,
                        descending,
                        k as nat,
                        self@.ids.len() as int,
                        o,
                    ) && ids@ == o.map_values(|s: Spot| s.0),
                None => r is None,
            },
    {
        let ghost m = self@;
        match self.columns.get(field) {
            None => {
                assert(!m.columns.dom().contains(field@));
                None
            },
            Some(c) => {
                assert(self.columns.of(field@) is Some);
                assert(m.columns.dom().contains(field@) && m.columns[field@] == c.model());
                let mut held: Vec<Candidate> = Vec::new();
                let all: usize = self.ids.len();
                if k > 0 {
                    let mut row: usize = 0;
                    assert(spots_held(held@) =~= Seq::empty());
                    while row < all
                        invariant
                            row <= all,
                            all == self.ids@.len(),
                            k > 0,
                            m == self@,
                            coherent(m),
                            c.wf(),
                            m.columns.dom().contains(field@),
                            m.columns[field@] == c.model(),
                            ranked(m, field@, held@),
                            are_best(
                                m,
                                field@,
                                descending,
                                k as nat,
                                row as int,
                                spots_held(held@),
                            ),
                        decreases all - row,
                    {
                        if !self.dead[row] {
                            let cand = Candidate { value: c.held.get(row), spot: (self.ids[row], row) };
                            take_in(
                                &mut held,
                                cand,
                                descending,
                                k,
                                Ghost(m),
                                Ghost(field@),
                                Ghost(row as int),
                            );
                        }
                        row += 1;
                    }
                }
                let ghost o = spots_held(held@);
                let mut out: Vec<u64> = Vec::new();
                let mut i: usize = 0;
                while i < held.len()
                    invariant
                        i <= held@.len(),
                        o == spots_held(held@),
                        out@.len() == i,
                        forall|j: int| 0 <= j < i ==> #[trigger] out@[j] == o[j].0,
                    decreases held.len() - i,
                {
                    out.push(held[i].spot.0);
                    i += 1;
                }
                proof {
                    assert(out@ =~= o.map_values(|s: Spot| s.0));
                    assert(are_best(m, field@, descending, k as nat, m.ids.len() as int, o));
                }
                Some(out)
            },
        }
    }
}

/// The best `k` rows are the head of a sort of all rows: selection chooses the
/// winners that sorting everything would choose.
pub proof fn the_best_head_a_full_sort(
    m: StoreModel,
    field: Seq<char>,
    descending: bool,
    k: nat,
    best: Seq<Spot>,
    sorted: Seq<Spot>,
)
    requires
        coherent(m),
        m.ids.len() <= usize::MAX,
        are_best(m, field, descending, k, m.ids.len() as int, best),
        are_best(m, field, descending, m.ids.len(), m.ids.len() as int, sorted),
    ensures
        best.len() <= sorted.len(),
        best == sorted.take(best.len() as int),
{
    let n = m.ids.len() as int;
    let live = live_spots(m, n);
    lemma_live_spots(m, n);
    assert(sorted.len() == live.len());
    assert forall|i: int| 0 <= i < best.len() implies best[i] == sorted[i] by {
        lemma_same_head(m, field, descending, k, best, sorted, i);
    }
    assert(best =~= sorted.take(best.len() as int));
}

proof fn lemma_same_head(
    m: StoreModel,
    field: Seq<char>,
    descending: bool,
    k: nat,
    best: Seq<Spot>,
    sorted: Seq<Spot>,
    i: int,
)
    requires
        coherent(m),
        m.ids.len() <= usize::MAX,
        are_best(m, field, descending, k, m.ids.len() as int, best),
        are_best(m, field, descending, m.ids.len(), m.ids.len() as int, sorted),
        0 <= i < best.len(),
        best.len() <= sorted.len(),
        sorted.len() == live_spots(m, m.ids.len() as int).len(),
    ensures
        best[i] == sorted[i],
    decreases i,
{
    let n = m.ids.len() as int;
    let live = live_spots(m, n);
    let a = best[i];
    let b = sorted[i];
    assert forall|j: int| 0 <= j < i implies #[trigger] best[j] == sorted[j] by {
        lemma_same_head(m, field, descending, k, best, sorted, j);
    }
    if a != b {
        assert(live.contains(a) && live.contains(b));
        lemma_all_held(m, field, descending, n, sorted, a);
        let p = choose|p: int| 0 <= p < sorted.len() && sorted[p] == a;
        let ra = rank_of(m, field, a);
        let rb = rank_of(m, field, b);
        lemma_rank_order(ra, rb, rb, descending);
        if p < i {
            assert(best[p] == sorted[p]);
            lemma_rank_order(ra, ra, ra, descending);
            assert(rank_before(
                rank_of(m, field, best[p]),
                rank_of(m, field, best[i]),
                descending,
            ));
        }
        assert(rank_before(
            rank_of(m, field, sorted[i]),
            rank_of(m, field, sorted[p]),
            descending,
        ));
        if best.contains(b) {
            let q = choose|q: int| 0 <= q < best.len() && best[q] == b;
            if q < i {
                assert(best[q] == sorted[q]);
                lemma_rank_order(rb, rb, rb, descending);
                assert(rank_before(
                    rank_of(m, field, sorted[q]),
                    rank_of(m, field, sorted[i]),
                    descending,
                ));
            } else {
                assert(rank_before(
                    rank_of(m, field, best[i]),
                    rank_of(m, field, best[q]),
                    descending,
                ));
            }
        }
    }
}

// -- aggregation --------------------------------------------------------------

/// What to accumulate over a column.
#[derive(Debug, PartialEq, Eq)]
pub struct ColumnAgg {
    pub field: Option<String>,
    /// Rows are counted, rather than values.
    pub counts_rows: bool,
}

/// What a [`ColumnAgg`] asks for.
pub struct ColumnAggModel {
    pub field: Option<Seq<char>>,
    pub counts_rows: bool,
}

impl View for ColumnAgg {
    type V = ColumnAggModel;

    open spec fn view(&self) -> ColumnAggModel {
        ColumnAggModel {
            field: match self.field {
                Some(f) => Some(f@),
                None => None,
            },
            counts_rows: self.counts_rows,
        }
    }
}

/// What has been accumulated. `count` is of rows, or of values that are not null, and
/// `numbers` of those that are numbers: only they are summed, and a sum or mean is of
/// them. The sum is `whole`, to which the numbers of `rest` are still to be added in
/// turn: `rest` begins with the first number that is not whole, or that would take
/// the sum past what is exact.
#[derive(Debug, PartialEq, Eq)]
pub struct ColumnAccum {
    pub count: u64,
    pub numbers: u64,
    pub whole: i64,
    pub rest: Vec<Value>,
    pub saw_value: bool,
    pub min: Option<Value>,
    pub max: Option<Value>,
}

/// What a [`ColumnAccum`] holds.
#[verifier::ext_equal]
pub struct AccumModel {
    pub count: nat,
    pub numbers: nat,
    pub whole: int,
    pub rest: Seq<ValueModel>,
    pub saw_value: bool,
    pub min: Option<ValueModel>,
    pub max: Option<ValueModel>,
}

pub open spec fn held_model(v: Option<Value>) -> Option<ValueModel> {
    match v {
        Some(v) => Some(v.model()),
        None => None,
    }
}

impl View for ColumnAccum {
    type V = AccumModel;

    open spec fn view(&self) -> AccumModel {
        AccumModel {
            count: self.count as nat,
            numbers: self.numbers as nat,
            whole: self.whole as int,
            rest: models(self.rest@),
            saw_value: self.saw_value,
            min: held_model(self.min),
            max: held_model(self.max),
        }
    }
}

pub open spec fn accums(s: Seq<ColumnAccum>) -> Seq<AccumModel> {
    s.map_values(|a: ColumnAccum| a@)
}

/// Nothing accumulated.
pub open spec fn nothing_seen() -> AccumModel {
    AccumModel {
        count: 0,
        numbers: 0,
        whole: 0,
        rest: Seq::empty(),
        saw_value: false,
        min: None,
        max: None,
    }
}

/// Whether a whole sum is exact.
pub open spec fn exact_sum(n: int) -> bool {
    -EXACT_INTEGER_LIMIT < n < EXACT_INTEGER_LIMIT
}

/// What is accumulated with one row more.
pub open spec fn accumulated(a: AccumModel, counts_rows: bool, v: Option<ValueModel>) -> AccumModel {
    if counts_rows {
        AccumModel { count: a.count + 1, ..a }
    } else {
        match v {
            None => a,
            Some(ValueModel::Null) => a,
            Some(v) => AccumModel {
                count: a.count + 1,
                numbers: a.numbers + if number(v) is Some {
                    1nat
                } else {
                    0
                },
                whole: match number(v) {
                    Some(NumberModel::Exact(n)) => if a.rest.len() == 0 && exact_sum(a.whole + n) {
                        a.whole + n
                    } else {
                        a.whole
                    },
                    _ => a.whole,
                },
                rest: match number(v) {
                    Some(NumberModel::Exact(n)) => if a.rest.len() == 0 && exact_sum(a.whole + n) {
                        a.rest
                    } else {
                        a.rest.push(v)
                    },
                    Some(NumberModel::Rough) => a.rest.push(v),
                    None => a.rest,
                },
                saw_value: a.saw_value || number(v) is Some,
                min: match a.min {
                    Some(m) => if value_before(v, m) {
                        Some(v)
                    } else {
                        Some(m)
                    },
                    None => Some(v),
                },
                max: match a.max {
                    Some(m) => if value_before(m, v) {
                        Some(v)
                    } else {
                        Some(m)
                    },
                    None => Some(v),
                },
            },
        }
    }
}

impl Default for ColumnAccum {
    fn default() -> (a: ColumnAccum)
        ensures
            a@ == nothing_seen(),
    {
        let a = ColumnAccum {
            count: 0,
            numbers: 0,
            whole: 0,
            rest: Vec::new(),
            saw_value: false,
            min: None,
            max: None,
        };
        assert(a@ =~= nothing_seen());
        a
    }
}

impl ColumnAccum {
    fn observe(&mut self, counts_rows: bool, v: Option<&Value>)
        requires
            old(self).count < u64::MAX,
            old(self).numbers <= old(self).count,
            exact_sum(old(self).whole as int),
        ensures
            final(self)@ == accumulated(
                old(self)@,
                counts_rows,
                match v {
                    Some(v) => Some(v.model()),
                    None => None,
                },
            ),
            exact_sum(final(self).whole as int),
            final(self).count <= old(self).count + 1,
            final(self).numbers <= final(self).count,
    {
        let ghost before = self@;
        if counts_rows {
            self.count = self.count + 1;
            assert(self@ =~= accumulated(before, counts_rows, None));
            return;
        }
        let v = match v {
            Some(v) => v,
            None => {
                return;
            },
        };
        if v.is_null() {
            return;
        }
        self.count = self.count + 1;
        match number_of(v) {
            Some(Number::Exact(n)) => {
                self.numbers = self.numbers + 1;
                self.saw_value = true;
                if self.rest.len() == 0 && -0x20_0000_0000_0000 < self.whole + n && self.whole + n
                    < 0x20_0000_0000_0000 {
                    self.whole = self.whole + n;
                } else {
                    self.rest.push(v.dup());
                    assert(models(self.rest@) =~= before.rest.push(v.model()));
                }
            },
            Some(Number::Rough) => {
                self.numbers = self.numbers + 1;
                self.saw_value = true;
                self.rest.push(v.dup());
                assert(models(self.rest@) =~= before.rest.push(v.model()));
            },
            None => {},
        }
        let lower = match &self.min {
            Some(m) => v.before(m),
            None => true,
        };
        if lower {
            self.min = Some(v.dup());
        }
        let higher = match &self.max {
            Some(m) => m.before(v),
            None => true,
        };
        if higher {
            self.max = Some(v.dup());
        }
        assert(self@ =~= accumulated(before, counts_rows, Some(v.model())));
    }
}

/// The group a row belongs to: a field it does not have counts as null.
pub open spec fn row_key(m: StoreModel, group_by: Seq<Seq<char>>, row: int) -> Seq<ValueModel> {
    Seq::new(
        group_by.len(),
        |i: int|
            match cell(m, group_by[i], row) {
                Some(v) => v,
                None => ValueModel::Null,
            },
    )
}

/// What an aggregate takes from a row.
pub open spec fn taken(m: StoreModel, a: ColumnAggModel, row: int) -> Option<ValueModel> {
    match a.field {
        Some(f) => cell(m, f, row),
        None => None,
    }
}

/// Whether a row counts: it is live, and it passed the test.
pub open spec fn counts(m: StoreModel, passed: Seq<bool>, row: int) -> bool {
    !m.dead[row] && passed[row]
}

/// What an aggregate comes to over a group's rows among the first `n`.
pub open spec fn group_total(
    m: StoreModel,
    group_by: Seq<Seq<char>>,
    a: ColumnAggModel,
    passed: Seq<bool>,
    key: Seq<ValueModel>,
    n: int,
) -> AccumModel
    decreases n,
{
    if n <= 0 {
        nothing_seen()
    } else {
        let before = group_total(m, group_by, a, passed, key, n - 1);
        if counts(m, passed, n - 1) && row_key(m, group_by, n - 1) == key {
            accumulated(before, a.counts_rows, taken(m, a, n - 1))
        } else {
            before
        }
    }
}

/// Whether a group has a row among the first `n`.
pub open spec fn group_seen(
    m: StoreModel,
    group_by: Seq<Seq<char>>,
    passed: Seq<bool>,
    key: Seq<ValueModel>,
    n: int,
) -> bool {
    exists|row: int|
        0 <= row < n && #[trigger] counts(m, passed, row) && row_key(m, group_by, row) == key
}

/// Groups and what was accumulated for each.
pub type Totals = Seq<(Seq<ValueModel>, Seq<AccumModel>)>;

/// Whether groups stand in order, none twice.
pub open spec fn groups_ordered(t: Totals) -> bool {
    forall|i: int, j: int|
        #![trigger t[i], t[j]]
        0 <= i < j < t.len() ==> list_before(t[i].0, t[j].0)
}

/// Whether totals are those of the first `n` rows: the groups that have a row,
/// in order, each with what every aggregate comes to over its rows.
pub open spec fn are_totals(
    m: StoreModel,
    group_by: Seq<Seq<char>>,
    aggs: Seq<ColumnAggModel>,
    passed: Seq<bool>,
    n: int,
    t: Totals,
) -> bool {
    &&& groups_ordered(t)
    &&& forall|key: Seq<ValueModel>|
        group_seen(m, group_by, passed, key, n) <==> #[trigger] has_group(t, key)
    &&& forall|i: int|
        0 <= i < t.len() ==> (#[trigger] t[i]).1 == Seq::new(
            aggs.len(),
            |j: int| group_total(m, group_by, aggs[j], passed, t[i].0, n),
        )
}

pub open spec fn has_group(t: Totals, key: Seq<ValueModel>) -> bool {
    exists|i: int| 0 <= i < t.len() && (#[trigger] t[i]).0 == key
}

pub open spec fn totals(s: Seq<(Vec<Value>, Vec<ColumnAccum>)>) -> Totals {
    s.map_values(|g: (Vec<Value>, Vec<ColumnAccum>)| (models(g.0@), accums(g.1@)))
}

/// Whether `passed` is what a test says of each live row, shown only the fields
/// that the test reads. Where there is no test every row passes.
pub open spec fn tested<F: Fn(&Record) -> bool>(
    m: StoreModel,
    predicate: Option<(&Vec<String>, F)>,
    passed: Seq<bool>,
) -> bool {
    &&& passed.len() == m.ids.len()
    &&& forall|row: int|
        0 <= row < m.ids.len() && !m.dead[row] ==> row_tested(m, predicate, row, #[trigger] passed[row])
}

pub open spec fn row_tested<F: Fn(&Record) -> bool>(
    m: StoreModel,
    predicate: Option<(&Vec<String>, F)>,
    row: int,
    passes: bool,
) -> bool {
    match predicate {
        None => passes,
        Some((fields, test)) => exists|rec: Record|
            shows(m, texts(fields@), row, #[trigger] rec.model()) && test.ensures((&rec,), passes),
    }
}

/// Whether a row passes as a predicate says of it, shown the given fields.
pub open spec fn row_kept(
    m: StoreModel,
    fields: Seq<Seq<char>>,
    predicate: ExprModel,
    keeps: Keeps,
    row: int,
    passes: bool,
) -> bool {
    exists|r: RecordModel| #[trigger]
        shows(m, fields, row, r) && passes == keeps(predicate, r)
}

fn fresh_accums(n: usize) -> (out: Vec<ColumnAccum>)
    ensures
        out@.len() == n,
        forall|i: int| 0 <= i < n ==> (#[trigger] out@[i])@ == nothing_seen(),
{
    let mut out: Vec<ColumnAccum> = Vec::new();
    let mut i: usize = 0;
    while i < n
        invariant
            i <= n,
            out@.len() == i,
            forall|k: int| 0 <= k < i ==> (#[trigger] out@[k])@ == nothing_seen(),
        decreases n - i,
    {
        out.push(ColumnAccum::default());
        i += 1;
    }
    out
}

/// Whether accumulators are within what `n` rows can bring them to.
spec fn tame_accums(s: Seq<ColumnAccum>, width: nat, n: int) -> bool {
    &&& s.len() == width
    &&& forall|j: int|
        0 <= j < s.len() ==> exact_sum((#[trigger] s[j]).whole as int) && s[j].numbers
            <= s[j].count <= n
}

spec fn tame(g: Seq<(Vec<Value>, Vec<ColumnAccum>)>, width: nat, n: int) -> bool {
    forall|i: int| 0 <= i < g.len() ==> tame_accums((#[trigger] g[i]).1@, width, n)
}

/// Where a group stands, or where it would.
fn group_place(groups: &Vec<(Vec<Value>, Vec<ColumnAccum>)>, key: &Vec<Value>) -> (at: usize)
    requires
        groups_ordered(totals(groups@)),
    ensures
        at <= groups@.len(),
        forall|i: int| 0 <= i < at ==> list_before((#[trigger] totals(groups@)[i]).0, models(key@)),
        forall|i: int|
            at <= i < groups@.len() ==> !list_before(
                (#[trigger] totals(groups@)[i]).0,
                models(key@),
            ),
{
    let ghost t = totals(groups@);
    let ghost k = models(key@);
    let mut at: usize = 0;
    while at < groups.len() && values_before(&groups[at].0, key)
        invariant
            at <= groups@.len(),
            t == totals(groups@),
            k == models(key@),
            forall|i: int| 0 <= i < at ==> list_before((#[trigger] t[i]).0, k),
        decreases groups.len() - at,
    {
        assert(t[at as int].0 == models(groups@[at as int].0@));
        at += 1;
    }
    proof {
        if at < t.len() {
            assert(t[at as int].0 == models(groups@[at as int].0@));
        }
        assert forall|i: int| at <= i < t.len() implies !list_before((#[trigger] t[i]).0, k) by {
            if i > at && list_before(t[i].0, k) {
                lemma_list_before_transitive(t[at as int].0, t[i].0, k);
            }
        }
    }
    at
}

/// Whether totals are those of the first `n` rows, with a place for the group of
/// the next.
spec fn ready(
    m: StoreModel,
    group_by: Seq<Seq<char>>,
    aggs: Seq<ColumnAggModel>,
    passed: Seq<bool>,
    n: int,
    t: Totals,
    key: Seq<ValueModel>,
    at: int,
) -> bool {
    &&& groups_ordered(t)
    &&& 0 <= at < t.len()
    &&& t[at].0 == key
    &&& forall|k: Seq<ValueModel>|
        (k == key || group_seen(m, group_by, passed, k, n)) <==> #[trigger] has_group(t, k)
    &&& forall|i: int|
        0 <= i < t.len() ==> (#[trigger] t[i]).1 == Seq::new(
            aggs.len(),
            |j: int| group_total(m, group_by, aggs[j], passed, t[i].0, n),
        )
}

proof fn lemma_settled(
    m: StoreModel,
    group_by: Seq<Seq<char>>,
    aggs: Seq<ColumnAggModel>,
    passed: Seq<bool>,
    n: int,
    before: Totals,
    t: Totals,
    key: Seq<ValueModel>,
    at: int,
)
    requires
        are_totals(m, group_by, aggs, passed, n, before),
        0 <= at <= before.len(),
        forall|i: int| 0 <= i < at ==> list_before((#[trigger] before[i]).0, key),
        forall|i: int| at <= i < before.len() ==> !list_before((#[trigger] before[i]).0, key),
        (at < before.len() && before[at].0 == key && t == before) || ((at == before.len()
            || before[at].0 != key) && t == before.insert(
            at,
            (key, Seq::new(aggs.len(), |j: int| nothing_seen())),
        )),
    ensures
        ready(m, group_by, aggs, passed, n, t, key, at),
{
    if at < before.len() && before[at].0 == key {
        assert(has_group(before, key));
    } else {
        assert forall|i: int| 0 <= i < before.len() implies (#[trigger] before[i]).0 != key by {
            lemma_list_before_total(before[i].0, key);
            if i > at {
                lemma_list_before_total(before[at].0, key);
                assert(list_before(before[at].0, before[i].0));
            }
        }
        assert(!has_group(before, key));
        assert(!group_seen(m, group_by, passed, key, n));
        assert forall|j: int| 0 <= j < aggs.len() implies group_total(
            m,
            group_by,
            #[trigger] aggs[j],
            passed,
            key,
            n,
        ) == nothing_seen() by {
            lemma_unseen_total(m, group_by, aggs[j], passed, key, n);
        }
        assert forall|i: int, j: int|
            #![trigger t[i], t[j]]
            0 <= i < j < t.len() implies list_before(t[i].0, t[j].0) by {
            if j == at {
                assert(t[i] == before[i]);
            } else if i == at {
                assert(t[j] == before[j - 1]);
                lemma_list_before_total(before[j - 1].0, key);
            } else {
                let x = if i < at { i } else { i - 1 };
                let y = if j < at { j } else { j - 1 };
                assert(t[i] == before[x] && t[j] == before[y]);
            }
        }
        assert forall|k: Seq<ValueModel>|
            (k == key || group_seen(m, group_by, passed, k, n)) <==> #[trigger] has_group(t, k) by {
            assert(t[at].0 == key);
            assert(group_seen(m, group_by, passed, k, n) <==> has_group(before, k));
            if has_group(before, k) {
                let i = choose|i: int| 0 <= i < before.len() && (#[trigger] before[i]).0 == k;
                assert(t[if i < at { i } else { i + 1 }].0 == k);
            }
            if has_group(t, k) && k != key {
                let i = choose|i: int| 0 <= i < t.len() && (#[trigger] t[i]).0 == k;
                assert(before[if i < at { i } else { i - 1 }].0 == k);
            }
        }
        assert forall|i: int| 0 <= i < t.len() implies (#[trigger] t[i]).1 == Seq::new(
            aggs.len(),
            |j: int| group_total(m, group_by, aggs[j], passed, t[i].0, n),
        ) by {
            if i == at {
                assert(t[i].1 =~= Seq::new(
                    aggs.len(),
                    |j: int| group_total(m, group_by, aggs[j], passed, key, n),
                ));
            } else {
                assert(t[i] == before[if i < at { i } else { i - 1 }]);
            }
        }
    }
}

proof fn lemma_seen_next(
    m: StoreModel,
    group_by: Seq<Seq<char>>,
    passed: Seq<bool>,
    key: Seq<ValueModel>,
    n: int,
)
    requires
        0 <= n,
    ensures
        group_seen(m, group_by, passed, key, n + 1) == (group_seen(m, group_by, passed, key, n) || (
        counts(m, passed, n) && row_key(m, group_by, n) == key)),
{
    if group_seen(m, group_by, passed, key, n + 1) {
        let row = choose|row: int|
            0 <= row < n + 1 && #[trigger] counts(m, passed, row) && row_key(m, group_by, row)
                == key;
        if row < n {
            assert(group_seen(m, group_by, passed, key, n));
        }
    }
    if group_seen(m, group_by, passed, key, n) {
        let row = choose|row: int|
            0 <= row < n && #[trigger] counts(m, passed, row) && row_key(m, group_by, row) == key;
        assert(counts(m, passed, row));
    }
}

proof fn lemma_counted(
    m: StoreModel,
    group_by: Seq<Seq<char>>,
    aggs: Seq<ColumnAggModel>,
    passed: Seq<bool>,
    n: int,
    t: Totals,
    after: Totals,
    at: int,
)
    requires
        0 <= n,
        counts(m, passed, n),
        ready(m, group_by, aggs, passed, n, t, row_key(m, group_by, n), at),
        after == t.update(
            at,
            (
                t[at].0,
                Seq::new(
                    aggs.len(),
                    |j: int| accumulated(t[at].1[j], aggs[j].counts_rows, taken(m, aggs[j], n)),
                ),
            ),
        ),
    ensures
        are_totals(m, group_by, aggs, passed, n + 1, after),
{
    let key = row_key(m, group_by, n);
    assert forall|i: int, j: int|
        #![trigger after[i], after[j]]
        0 <= i < j < after.len() implies list_before(after[i].0, after[j].0) by {
        assert(after[i].0 == t[i].0 && after[j].0 == t[j].0);
    }
    assert forall|k: Seq<ValueModel>|
        group_seen(m, group_by, passed, k, n + 1) <==> #[trigger] has_group(after, k) by {
        lemma_seen_next(m, group_by, passed, k, n);
        assert((k == key || group_seen(m, group_by, passed, k, n)) <==> has_group(t, k));
        if has_group(t, k) {
            let i = choose|i: int| 0 <= i < t.len() && (#[trigger] t[i]).0 == k;
            assert(after[i].0 == k);
        }
        if has_group(after, k) {
            let i = choose|i: int| 0 <= i < after.len() && (#[trigger] after[i]).0 == k;
            assert(t[i].0 == k);
        }
    }
    assert forall|i: int| 0 <= i < after.len() implies (#[trigger] after[i]).1 == Seq::new(
        aggs.len(),
        |j: int| group_total(m, group_by, aggs[j], passed, after[i].0, n + 1),
    ) by {
        if i != at {
            lemma_list_before_total(t[i].0, key);
            assert(t[i].0 != key) by {
                if i < at {
                    assert(list_before(t[i].0, t[at].0));
                } else {
                    assert(list_before(t[at].0, t[i].0));
                }
            }
        }
        assert(after[i].1 =~= Seq::new(
            aggs.len(),
            |j: int| group_total(m, group_by, aggs[j], passed, after[i].0, n + 1),
        ));
    }
}

proof fn lemma_skipped(
    m: StoreModel,
    group_by: Seq<Seq<char>>,
    aggs: Seq<ColumnAggModel>,
    passed: Seq<bool>,
    n: int,
    t: Totals,
)
    requires
        0 <= n,
        !counts(m, passed, n),
        are_totals(m, group_by, aggs, passed, n, t),
    ensures
        are_totals(m, group_by, aggs, passed, n + 1, t),
{
    assert forall|k: Seq<ValueModel>|
        group_seen(m, group_by, passed, k, n + 1) <==> #[trigger] has_group(t, k) by {
        lemma_seen_next(m, group_by, passed, k, n);
    }
    assert forall|i: int| 0 <= i < t.len() implies (#[trigger] t[i]).1 == Seq::new(
        aggs.len(),
        |j: int| group_total(m, group_by, aggs[j], passed, t[i].0, n + 1),
    ) by {
        assert(t[i].1 =~= Seq::new(
            aggs.len(),
            |j: int| group_total(m, group_by, aggs[j], passed, t[i].0, n + 1),
        ));
    }
}

/// A group without rows has accumulated nothing.
proof fn lemma_unseen_total(
    m: StoreModel,
    group_by: Seq<Seq<char>>,
    a: ColumnAggModel,
    passed: Seq<bool>,
    key: Seq<ValueModel>,
    n: int,
)
    requires
        !group_seen(m, group_by, passed, key, n),
    ensures
        group_total(m, group_by, a, passed, key, n) == nothing_seen(),
    decreases n,
{
    if n > 0 {
        assert(!group_seen(m, group_by, passed, key, n - 1)) by {
            if group_seen(m, group_by, passed, key, n - 1) {
                let row = choose|row: int|
                    0 <= row < n - 1 && #[trigger] counts(m, passed, row) && row_key(
                        m,
                        group_by,
                        row,
                    ) == key;
                assert(counts(m, passed, row));
            }
        }
        assert(!(counts(m, passed, n - 1) && row_key(m, group_by, n - 1) == key));
        lemma_unseen_total(m, group_by, a, passed, key, n - 1);
    }
}

impl ColumnStore {
    fn field_cell(&self, row: usize, field: &str) -> (r: Option<Value>)
        requires
            self.wf(),
            row < self@.ids.len(),
        ensures
            held_model(r) == cell(self@, field@, row as int),
    {
        match self.columns.get(field) {
            Some(c) => {
                assert(self.columns.of(field@) is Some);
                assert(self@.columns.dom().contains(field@));
                c.held.get(row)
            },
            None => {
                assert(!self@.columns.dom().contains(field@));
                None
            },
        }
    }

    fn key_at(&self, row: usize, group_by: &Vec<String>) -> (key: Vec<Value>)
        requires
            self.wf(),
            row < self@.ids.len(),
        ensures
            models(key@) == row_key(self@, texts(group_by@), row as int),
    {
        let ghost want = row_key(self@, texts(group_by@), row as int);
        let mut key: Vec<Value> = Vec::new();
        let mut i: usize = 0;
        while i < group_by.len()
            invariant
                i <= group_by@.len(),
                self.wf(),
                row < self@.ids.len(),
                want == row_key(self@, texts(group_by@), row as int),
                want.len() == group_by@.len(),
                key@.len() == i,
                forall|k: int| 0 <= k < i ==> (#[trigger] key@[k]).model() == want[k],
            decreases group_by.len() - i,
        {
            assert(texts(group_by@)[i as int] == group_by@[i as int]@);
            let v = match self.field_cell(row, group_by[i].as_str()) {
                Some(v) => v,
                None => Value::Null,
            };
            key.push(v);
            i += 1;
        }
        assert(models(key@) =~= want);
        key
    }

    fn tests<F: Fn(&Record) -> bool>(&self, predicate: &Option<(&Vec<String>, F)>) -> (passed: Vec<
        bool,
    >)
        requires
            self.wf(),
            *predicate matches Some((_, test)) ==> forall|r: &Record| test.requires((r,)),
        ensures
            tested(self@, *predicate, passed@),
    {
        let ghost m = self@;
        let mut passed: Vec<bool> = Vec::new();
        let mut row: usize = 0;
        while row < self.ids.len()
            invariant
                row <= self.ids@.len(),
                self.wf(),
                m == self@,
                *predicate matches Some((_, test)) ==> forall|r: &Record| test.requires((r,)),
                passed@.len() == row,
                forall|k: int|
                    0 <= k < row && !m.dead[k] ==> row_tested(
                        m,
                        *predicate,
                        k,
                        #[trigger] passed@[k],
                    ),
            decreases self.ids.len() - row,
        {
            let ghost before = passed@;
            if self.dead[row] {
                passed.push(false);
            } else {
                match predicate {
                    None => {
                        passed.push(true);
                    },
                    Some((fields, test)) => {
                        let rec = self.shown_all(row, fields);
                        let passes: bool = test(&rec);
                        assert(row_tested(m, *predicate, row as int, passes)) by {
                            assert(shows(m, texts(fields@), row as int, rec.model()));
                        }
                        passed.push(passes);
                    },
                }
            }
            row += 1;
        }
        passed
    }

    /// Every row passes.
    pub fn passing_all(&self) -> (passed: Vec<bool>)
        ensures
            passed@.len() == self@.ids.len(),
            forall|row: int| 0 <= row < passed@.len() ==> #[trigger] passed@[row],
    {
        let mut passed: Vec<bool> = Vec::new();
        let mut row: usize = 0;
        while row < self.ids.len()
            invariant
                row <= self.ids@.len(),
                passed@.len() == row,
                forall|k: int| 0 <= k < row ==> #[trigger] passed@[k],
            decreases self.ids.len() - row,
        {
            passed.push(true);
            row += 1;
        }
        passed
    }

    /// Which live rows a predicate keeps, shown the given fields.
    pub fn passing<E: Fn(&Expr, &Record) -> bool>(
        &self,
        predicate: &Expr,
        fields: &Vec<String>,
        eval: &E,
    ) -> (passed: Vec<bool>)
        requires
            self.wf(),
            askable(*eval),
        ensures
            passed@.len() == self@.ids.len(),
            forall|keeps: Keeps, row: int|
                #![trigger evaluates(*eval, keeps), passed@[row]]
                evaluates(*eval, keeps) && 0 <= row < passed@.len() && !self@.dead[row] ==> row_kept(
                    self@,
                    texts(fields@),
                    predicate.model(),
                    keeps,
                    row,
                    passed@[row],
                ),
    {
        let ghost m = self@;
        let ghost names = texts(fields@);
        let mut passed: Vec<bool> = Vec::new();
        let mut row: usize = 0;
        while row < self.ids.len()
            invariant
                row <= self.ids@.len(),
                self.wf(),
                m == self@,
                askable(*eval),
                names == texts(fields@),
                passed@.len() == row,
                forall|keeps: Keeps, k: int|
                    #![trigger evaluates(*eval, keeps), passed@[k]]
                    evaluates(*eval, keeps) && 0 <= k < row && !m.dead[k] ==> row_kept(
                        m,
                        names,
                        predicate.model(),
                        keeps,
                        k,
                        passed@[k],
                    ),
            decreases self.ids.len() - row,
        {
            let ghost before = passed@;
            if self.dead[row] {
                passed.push(false);
            } else {
                let rec = self.shown_all(row, fields);
                let passes: bool = eval(predicate, &rec);
                passed.push(passes);
                proof {
                    assert forall|keeps: Keeps| #[trigger] evaluates(*eval, keeps) implies row_kept(
                        m,
                        names,
                        predicate.model(),
                        keeps,
                        row as int,
                        passes,
                    ) by {
                        assert(shows(m, names, row as int, rec.model()));
                    }
                }
            }
            proof {
                assert forall|keeps: Keeps, k: int|
                    #![trigger evaluates(*eval, keeps), passed@[k]]
                    evaluates(*eval, keeps) && 0 <= k < row + 1 && !m.dead[k] implies row_kept(
                    m,
                    names,
                    predicate.model(),
                    keeps,
                    k,
                    passed@[k],
                ) by {
                    if k < row {
                        assert(passed@[k] == before[k]);
                    }
                }
            }
            row += 1;
        }
        passed
    }

    /// Group the rows that passed and accumulate over each group.
    pub fn group(&self, group_by: &Vec<String>, aggs: &Vec<ColumnAgg>, passed: &Vec<bool>) -> (groups:
        Vec<(Vec<Value>, Vec<ColumnAccum>)>)
        requires
            self.wf(),
            passed@.len() == self@.ids.len(),
        ensures
            are_totals(
                self@,
                texts(group_by@),
                aggs@.map_values(|a: ColumnAgg| a@),
                passed@,
                self@.ids.len() as int,
                totals(groups@),
            ),
    {
        let ghost m = self@;
        let ghost gb = texts(group_by@);
        let ghost wants = aggs@.map_values(|a: ColumnAgg| a@);
        let mut groups: Vec<(Vec<Value>, Vec<ColumnAccum>)> = Vec::new();
        let mut row: usize = 0;
        let all: usize = self.ids.len();
        assert(totals(groups@) =~= Seq::empty());
        while row < all
            invariant
                row <= all,
                all == self.ids@.len(),
                self.wf(),
                m == self@,
                passed@.len() == m.ids.len(),
                gb == texts(group_by@),
                wants == aggs@.map_values(|a: ColumnAgg| a@),
                are_totals(m, gb, wants, passed@, row as int, totals(groups@)),
                tame(groups@, aggs@.len(), row as int),
            decreases all - row,
        {
            let ghost before = totals(groups@);
            if !self.dead[row] && passed[row] {
                let key = self.key_at(row, group_by);
                let ghost k = row_key(m, gb, row as int);
                let at = group_place(&groups, &key);
                let known = at < groups.len() && values_same(&groups[at].0, &key);
                if !known {
                    groups.insert(at, (key, fresh_accums(aggs.len())));
                }
                let ghost settled = totals(groups@);
                proof {
                    if known {
                        assert(settled[at as int].0 == k);
                    } else {
                        let fresh = groups@[at as int].1;
                        assert(accums(fresh@) =~= Seq::new(
                            wants.len(),
                            |j: int| nothing_seen(),
                        ));
                        assert(settled =~= before.insert(at as int, (k, accums(fresh@))));
                    }
                    lemma_settled(m, gb, wants, passed@, row as int, before, settled, k, at as int);
                }
                let ghost accs = settled[at as int].1;
                let mut i: usize = 0;
                while i < aggs.len()
                    invariant
                        i <= aggs@.len(),
                        row < all,
                        all == self.ids@.len(),
                        self.wf(),
                        m == self@,
                        at < groups@.len(),
                        wants == aggs@.map_values(|a: ColumnAgg| a@),
                        settled.len() == groups@.len(),
                        accs == settled[at as int].1,
                        accs.len() == aggs@.len(),
                        forall|g: int|
                            0 <= g < groups@.len() ==> models((#[trigger] groups@[g]).0@)
                                == settled[g].0,
                        forall|g: int|
                            0 <= g < groups@.len() && g != at ==> accums((#[trigger] groups@[g]).1@)
                                == settled[g].1,
                        forall|j: int|
                            i <= j < aggs@.len() ==> (#[trigger] groups@[at as int].1@[j])@
                                == accs[j],
                        forall|j: int|
                            0 <= j < i ==> (#[trigger] groups@[at as int].1@[j])@ == accumulated(
                                accs[j],
                                wants[j].counts_rows,
                                taken(m, wants[j], row as int),
                            ),
                        forall|j: int|
                            i <= j < aggs@.len() ==> (#[trigger] groups@[at as int].1@[j]).count
                                <= row,
                        forall|g: int|
                            0 <= g < groups@.len() && g != at ==> tame_accums(
                                (#[trigger] groups@[g]).1@,
                                aggs@.len(),
                                row as int,
                            ),
                        tame_accums(groups@[at as int].1@, aggs@.len(), row + 1),
                    decreases aggs.len() - i,
                {
                    let v = match &aggs[i].field {
                        Some(f) => self.field_cell(row, f.as_str()),
                        None => None,
                    };
                    assert(held_model(v) == taken(m, wants[i as int], row as int));
                    assert(groups@[at as int].1@[i as int]@ == accs[i as int]);
                    let counts_rows = aggs[i].counts_rows;
                    groups[at].1[i].observe(
                        counts_rows,
                        match &v {
                            Some(x) => Some(x),
                            None => None,
                        },
                    );
                    i += 1;
                }
                proof {
                    let after = totals(groups@);
                    assert(after[at as int].1 =~= Seq::new(
                        wants.len(),
                        |j: int|
                            accumulated(accs[j], wants[j].counts_rows, taken(m, wants[j], row as int)),
                    ));
                    assert(after =~= settled.update(
                        at as int,
                        (settled[at as int].0, after[at as int].1),
                    ));
                    lemma_counted(m, gb, wants, passed@, row as int, settled, after, at as int);
                    assert forall|g: int| 0 <= g < groups@.len() implies tame_accums(
                        (#[trigger] groups@[g]).1@,
                        aggs@.len(),
                        row + 1,
                    ) by {}
                }
            } else {
                proof {
                    lemma_skipped(m, gb, wants, passed@, row as int, before);
                }
            }
            row += 1;
        }
        groups
    }

    /// Group the rows that pass and accumulate over each group, without building
    /// a record per row. The groups come in the order of their keys.
    pub fn aggregate<F: Fn(&Record) -> bool>(
        &self,
        group_by: &Vec<String>,
        aggs: &Vec<ColumnAgg>,
        predicate: Option<(&Vec<String>, F)>,
    ) -> (out: Vec<(Vec<Value>, Vec<ColumnAccum>)>)
        requires
            self.wf(),
            predicate matches Some((_, test)) ==> forall|r: &Record| test.requires((r,)),
        ensures
            exists|passed: Seq<bool>| #[trigger]
                tested(self@, predicate, passed) && are_totals(
                    self@,
                    texts(group_by@),
                    aggs@.map_values(|a: ColumnAgg| a@),
                    passed,
                    self@.ids.len() as int,
                    totals(out@),
                ),
    {
        let passed = self.tests(&predicate);
        self.group(group_by, aggs, &passed)
    }
}

// -- what a copy keeps -------------------------------------------------------------------

/// Whether two values are of one sort.
pub open spec fn one_sort(v: ValueModel, w: ValueModel) -> bool {
    match v {
        ValueModel::Null => w is Null,
        ValueModel::Bool(_) => w is Bool,
        ValueModel::I64(_) => w is I64,
        ValueModel::U64(_) => w is U64,
        ValueModel::F64(_) => w is F64,
        ValueModel::Str(_) => w is Str,
        ValueModel::Bytes(_) => w is Bytes,
        ValueModel::List(_) => w is List,
    }
}

/// Whether a field's values, nulls left out, are all of one sort.
pub open spec fn of_one_sort(rows: RowsModel, f: Seq<char>) -> bool {
    forall|i: int, j: int|
        #![trigger rows[i], rows[j]]
        0 <= i < rows.len() && 0 <= j < rows.len() ==> match (
            field_of(rows[i].1, f),
            field_of(rows[j].1, f),
        ) {
            (Some(v), Some(w)) => v is Null || w is Null || one_sort(v, w),
            _ => true,
        }
}

/// Whether a field is null in some row.
pub open spec fn has_null(rows: RowsModel, f: Seq<char>) -> bool {
    exists|i: int| 0 <= i < rows.len() && field_of((#[trigger] rows[i]).1, f) == Some(ValueModel::Null)
}

/// Whether a field has a value that is not null of a kind in some row.
spec fn has_kind(rows: RowsModel, f: Seq<char>, kind: Kind) -> bool {
    exists|i: int|
        0 <= i < rows.len() && (field_of((#[trigger] rows[i]).1, f) matches Some(v) && !(v is Null)
            && kind_for(v) == kind)
}

proof fn lemma_of_one_sort(rows: RowsModel, f: Seq<char>)
    requires
        of_one_sort(rows, f),
    ensures
        coherent_lengths(columns_of(rows), rows),
        match column_of(columns_of(rows), f) {
            None => forall|i: int|
                0 <= i < rows.len() ==> field_of((#[trigger] rows[i]).1, f) is None,
            Some(c) => {
                &&& !c.lost
                &&& c.kind != Kind::Other ==> has_kind(rows, f, c.kind)
                &&& c.blanked ==> c.kind != Kind::Other && has_null(rows, f)
                &&& c.cells.len() == rows.len()
                &&& forall|i: int|
                    0 <= i < rows.len() ==> (#[trigger] c.cells[i] == field_of(rows[i].1, f) || (
                    c.cells[i] is None && field_of(rows[i].1, f) == Some(ValueModel::Null)
                        && c.blanked))
            },
        },
    decreases rows.len(),
{
    if rows.len() > 0 {
        let rest = rows.drop_last();
        assert forall|i: int, j: int|
            #![trigger rest[i], rest[j]]
            0 <= i < rest.len() && 0 <= j < rest.len() implies match (
            field_of(rest[i].1, f),
            field_of(rest[j].1, f),
        ) {
            (Some(v), Some(w)) => v is Null || w is Null || one_sort(v, w),
            _ => true,
        } by {
            assert(rest[i] == rows[i] && rest[j] == rows[j]);
        }
        lemma_of_one_sort(rest, f);
        let m = columns_of(rest);
        let last = rows.len() - 1;
        let new = field_of(rows.last().1, f);
        assert(rows[last] == rows.last());
        assert(m.ids.len() == rest.len());
        let own = column_of(columns_of(rows), f);
        match column_of(m, f) {
            None => {
                assert forall|i: int| 0 <= i < rest.len() implies field_of((#[trigger] rows[i]).1, f) is None by {
                    assert(rest[i] == rows[i]);
                }
                if new is Some {
                    let c = own->Some_0;
                    assert(c == with_cell(begun(new, rest.len()), new));
                    if c.kind != Kind::Other {
                        assert(has_kind(rows, f, c.kind));
                    }
                }
            },
            Some(c) => {
                let d = own->Some_0;
                assert(d == with_cell(c, new));
                if c.kind != Kind::Other {
                    let k = choose|k: int|
                        0 <= k < rest.len() && (field_of((#[trigger] rest[k]).1, f) matches Some(v) && !(
                        v is Null) && kind_for(v) == c.kind);
                    assert(rows[k] == rest[k]);
                    assert(has_kind(rows, f, c.kind));
                }
                if c.blanked {
                    let k = choose|k: int|
                        0 <= k < rest.len() && field_of((#[trigger] rest[k]).1, f) == Some(
                            ValueModel::Null,
                        );
                    assert(rows[k] == rest[k]);
                }
                assert forall|i: int| 0 <= i < rows.len() implies (#[trigger] d.cells[i] == field_of(
                    rows[i].1,
                    f,
                ) || (d.cells[i] is None && field_of(rows[i].1, f) == Some(ValueModel::Null)
                    && d.blanked)) by {
                    if i < rest.len() {
                        assert(d.cells[i] == c.cells[i]);
                        assert(rest[i] == rows[i]);
                    }
                }
            },
        }
    }
}

/// Whether a copy has one row for each of the rows it is of.
spec fn coherent_lengths(m: StoreModel, rows: RowsModel) -> bool {
    m.ids.len() == rows.len()
}

/// A columnar copy keeps every value of a field whose values are of one sort, and says so,
/// so that it can be asked. A null among other values is kept as nothing, and it says that
/// too.
pub proof fn a_copy_keeps_what_is_of_one_sort(rows: RowsModel, f: Seq<char>)
    requires
        of_one_sort(rows, f),
    ensures
        !lossy(columns_of(rows), f),
        !has_null(rows, f) || (forall|i: int|
            0 <= i < rows.len() ==> (field_of((#[trigger] rows[i]).1, f) matches Some(v) ==> v is Null))
            ==> !inexact(columns_of(rows), f),
        forall|i: int|
            0 <= i < rows.len() ==> (cell(columns_of(rows), f, i) == field_of(
                (#[trigger] rows[i]).1,
                f,
            ) || (cell(columns_of(rows), f, i) is None && field_of(rows[i].1, f) == Some(
                ValueModel::Null,
            ) && inexact(columns_of(rows), f))),
{
    lemma_of_one_sort(rows, f);
    if let Some(c) = column_of(columns_of(rows), f) {
        if c.kind != Kind::Other {
            let k = choose|k: int|
                0 <= k < rows.len() && (field_of((#[trigger] rows[k]).1, f) matches Some(v) && !(
                v is Null) && kind_for(v) == c.kind);
        }
        assert forall|i: int| 0 <= i < rows.len() implies (cell(columns_of(rows), f, i) == field_of(
            (#[trigger] rows[i]).1,
            f,
        ) || (cell(columns_of(rows), f, i) is None && field_of(rows[i].1, f) == Some(
            ValueModel::Null,
        ) && inexact(columns_of(rows), f))) by {
            assert(c.cells[i] == field_of(rows[i].1, f) || c.cells[i] is None);
        }
    }
}

/// A copy takes what its columns take, and for every row it ever had an id and a mark, and
/// for every row that lives a place; as far as that can be counted.
pub proof fn a_copy_takes_what_its_parts_take(m: StoreModel, names: Seq<Seq<char>>)
    ensures
        copy_cost(m, names) == capped(
            columns_cost(m, names) + 8 * m.ids.len() + 24 * m.rows.dom().len() + m.ids.len(),
        ),
{
}

/// Columns take what each of them takes: a switch in two bytes a row, a number in nine, text
/// in five and each different word once, and anything else in forty-eight.
pub proof fn a_column_takes_what_its_cells_take(c: ColumnModel)
    ensures
        c.kind is Bool ==> column_cost(c) == capped(2 * c.cells.len() as int),
        c.kind is I64 || c.kind is U64 || c.kind is F64 ==> column_cost(c) == capped(
            9 * c.cells.len() as int,
        ),
        c.kind is Text ==> column_cost(c) == capped(
            5 * c.cells.len() + words_cost(vocabulary(c.cells)),
        ),
        c.kind is Other ==> column_cost(c) == capped(48 * c.cells.len() as int),
        vocabulary(c.cells).no_duplicates(),
        forall|w: Seq<char>| #[trigger]
            vocabulary(c.cells).contains(w) <==> c.cells.contains(Some(ValueModel::Str(w))),
{
    lemma_vocabulary(c.cells);
}

proof fn lemma_vocabulary(cells: Seq<Option<ValueModel>>)
    ensures
        vocabulary(cells).no_duplicates(),
        forall|w: Seq<char>| #[trigger]
            vocabulary(cells).contains(w) <==> cells.contains(Some(ValueModel::Str(w))),
    decreases cells.len(),
{
    if cells.len() > 0 {
        let rest = cells.drop_last();
        lemma_vocabulary(rest);
        let (before, all) = (vocabulary(rest), vocabulary(cells));
        assert forall|w: Seq<char>| #[trigger] all.contains(w) <==> cells.contains(
            Some(ValueModel::Str(w)),
        ) by {
            let x = Some(ValueModel::Str(w));
            assert(before.contains(w) <==> rest.contains(x));
            assert(cells.contains(x) <==> rest.contains(x) || cells.last() == x) by {
                if rest.contains(x) {
                    let i = choose|i: int| 0 <= i < rest.len() && rest[i] == x;
                    assert(cells[i] == x);
                }
                if cells.contains(x) {
                    let i = choose|i: int| 0 <= i < cells.len() && cells[i] == x;
                    if i < rest.len() {
                        assert(rest[i] == x);
                    }
                }
                assert(cells[cells.len() - 1] == cells.last());
            }
            if let Some(ValueModel::Str(s)) = cells.last() {
                if !before.contains(s) {
                    assert(all[before.len() as int] == s);
                    if before.contains(w) {
                        let i = choose|i: int| 0 <= i < before.len() && before[i] == w;
                        assert(all[i] == w);
                    }
                }
            }
        }
    }
}

} // verus!
