//! Making indexes, dropping them, and asking them.

use vstd::prelude::*;
use crate::action::{kind_text, ordered_kind, IndexKind};
use crate::assoc::{find, lemma_find_absent, lemma_find_insert};
use crate::caches::{rows_model, Rows};
use crate::derived::{all_ordered, index_models, same_elsewhere, Derived};
use crate::error::{Error, ErrorModel};
use crate::expr::{Expr, ExprModel};
use crate::exprcodec::{
    decode_expr_hex, decoded_hex, encode_expr_hex, expr_bytes, fault_text, hex_text, levels_allowed,
    within, Fault,
};
use crate::index::{
    an_empty_index_is_faithful, askable, evaluates, faithful, group_models, ids_between, ids_under,
    key_under, keys_in, projects, shape_name, taking_in_keeps_an_index_faithful, ungrouped, Entry,
    Group, Index, IndexModel, Keeps, Limit, Records, Shape, ShapeModel,
};
use crate::names::{
    composite_name, composite_text, cut, cut_at, has_char, pieces, split_on, COMPOSITE_SEP,
    COVER_SEP, PARTIAL_SEP,
};
use crate::record::Record;
use crate::rows::{ascending, RowsModel};
use crate::strmap::lemma_value_changed;
use crate::text::{
    contains_str, lemma_sorted_set, lemma_text_before_total, lemma_text_before_transitive,
    sort_dedup, sorted_set, str_eq, str_lt, text_before, texts,
};
use crate::value::{Value, ValueModel};
use crate::verify::records_of;

verus! {

// -- building -----------------------------------------------------------------

pub proof fn lemma_records_pushed(rows: RowsModel, i: int)
    requires
        ascending(rows),
        0 <= i < rows.len(),
    ensures
        records_of(rows.take(i + 1)) == records_of(rows.take(i)).insert(rows[i].0, rows[i].1),
        !records_of(rows.take(i)).dom().contains(rows[i].0),
{
    let now = rows.take(i);
    let next = rows.take(i + 1);
    let (id, r) = rows[i];
    assert(next =~= now.insert(i, rows[i]));
    assert forall|k: int| 0 <= k < now.len() implies (#[trigger] now[k]).0 != id by {
        assert(now[k] == rows[k]);
    }
    lemma_find_absent(now, id);
    assert forall|k: int| 0 <= k < i implies (#[trigger] next[k]).0 != id by {
        assert(next[k] == rows[k]);
    }
    crate::assoc::lemma_find_at(next, id, i);
    assert forall|other: u64| other != id implies #[trigger] find(next, other) == find(now, other) by {
        lemma_find_insert(now, i, rows[i], other);
    }
    let a = records_of(next);
    let b = records_of(now).insert(id, r);
    assert(a.dom() =~= b.dom()) by {
        assert forall|k: u64| a.dom().contains(k) <==> b.dom().contains(k) by {
            if k != id {
                assert(find(next, k) == find(now, k));
            }
        }
    }
    assert forall|k: u64| a.dom().contains(k) implies a[k] == b[k] by {
        if k != id {
            assert(find(next, k) == find(now, k));
        }
    }
    assert(a =~= b);
}

/// Build an index over the records of a collection.
pub fn build_index<E: Fn(&Expr, &Record) -> bool>(
    shape: Shape,
    kind: IndexKind,
    rows: &Rows,
    eval: &E,
) -> (idx: Index)
    requires
        ascending(rows_model(rows@)),
        askable(*eval),
    ensures
        idx.wf(),
        idx@.shape == shape@,
        idx@.kind == kind,
        forall|keeps: Keeps| #[trigger]
            evaluates(*eval, keeps) ==> faithful(idx@, keeps, records_of(rows_model(rows@))),
{
    let ghost all = rows_model(rows@);
    let mut idx = Index::new(shape, kind);
    let mut i: usize = 0;
    proof {
        assert(all.take(0) =~= Seq::empty());
        assert(records_of(all.take(0)) =~= Map::empty());
        assert forall|keeps: Keeps| #[trigger] evaluates(*eval, keeps) implies faithful(
            idx@,
            keeps,
            records_of(all.take(0)),
        ) by {
            an_empty_index_is_faithful(idx@, keeps);
        }
    }
    while i < rows.len()
        invariant
            i <= rows@.len(),
            all == rows_model(rows@),
            ascending(all),
            askable(*eval),
            idx.wf(),
            idx@.shape == shape@,
            idx@.kind == kind,
            forall|keeps: Keeps| #[trigger]
                evaluates(*eval, keeps) ==> faithful(idx@, keeps, records_of(all.take(i as int))),
        decreases rows.len() - i,
    {
        let ghost before = idx@;
        idx.index_record(rows[i].0, &rows[i].1, eval);
        proof {
            let (id, r) = (rows@[i as int].0, rows@[i as int].1.model());
            assert(all[i as int] == (id, r));
            lemma_records_pushed(all, i as int);
            assert forall|keeps: Keeps| #[trigger] evaluates(*eval, keeps) implies faithful(
                idx@,
                keeps,
                records_of(all.take(i + 1)),
            ) by {
                taking_in_keeps_an_index_faithful(
                    before,
                    keeps,
                    records_of(all.take(i as int)),
                    id,
                    r,
                    idx@,
                );
            }
        }
        i += 1;
    }
    assert(all.take(i as int) =~= all);
    idx
}

/// Whether entries are exactly those of groups.
pub open spec fn holds_groups(s: Seq<Entry>, g: Seq<Group>) -> bool {
    forall|e: Entry| #[trigger] s.contains(e) <==> ungrouped(g).contains(e)
}

/// Put cached entries back into an index.
fn restore_index(shape: Shape, kind: IndexKind, cached: &Vec<(Value, Vec<u64>)>) -> (idx: Index)
    ensures
        idx.wf(),
        idx@.shape == shape@,
        idx@.kind == kind,
        holds_groups(idx@.entries, group_models(cached@)),
        idx@.carried == RowsModel::empty(),
{
    let ghost all = group_models(cached@);
    let mut idx = Index::new(shape, kind);
    let mut i: usize = 0;
    assert(all.take(0) =~= Seq::empty());
    while i < cached.len()
        invariant
            i <= cached@.len(),
            all == group_models(cached@),
            idx.wf(),
            idx@.shape == shape@,
            idx@.kind == kind,
            idx@.carried == RowsModel::empty(),
            holds_groups(idx@.entries, all.take(i as int)),
        decreases cached.len() - i,
    {
        let g = &cached[i];
        let ghost key = g.0.model();
        let ghost before = ungrouped(all.take(i as int));
        let ghost pairs = g.1@.map_values(|id: u64| (key, id));
        let mut k: usize = 0;
        assert(before + pairs.take(0) =~= before);
        while k < g.1.len()
            invariant
                k <= g.1@.len(),
                key == g.0.model(),
                pairs == g.1@.map_values(|id: u64| (key, id)),
                idx.wf(),
                idx@.shape == shape@,
                idx@.kind == kind,
                idx@.carried == RowsModel::empty(),
                forall|e: Entry| #[trigger]
                    idx@.entries.contains(e) <==> (before + pairs.take(k as int)).contains(e),
            decreases g.1.len() - k,
        {
            let ghost was = idx@.entries;
            idx.insert(&g.0, g.1[k]);
            proof {
                let now = before + pairs.take(k as int);
                let next = before + pairs.take(k + 1);
                let e = (key, g.1@[k as int]);
                assert(next =~= now.push(e));
                assert forall|x: Entry| #[trigger] idx@.entries.contains(x) <==> next.contains(
                    x,
                ) by {
                    assert(was.contains(x) <==> now.contains(x));
                    assert(next[now.len() as int] == e);
                    if now.contains(x) {
                        let q = choose|q: int| 0 <= q < now.len() && now[q] == x;
                        assert(next[q] == x);
                    }
                    if next.contains(x) && x != e {
                        let q = choose|q: int| 0 <= q < next.len() && next[q] == x;
                        assert(now[q] == x);
                    }
                }
            }
            k += 1;
        }
        proof {
            let next = all.take(i + 1);
            assert(next.drop_last() =~= all.take(i as int));
            assert(next.last() == (key, g.1@));
            assert(pairs.take(k as int) =~= pairs);
            assert(ungrouped(next) =~= before + pairs);
        }
        i += 1;
    }
    assert(all.take(i as int) =~= all);
    idx
}

/// The shape of index a definition's name asks for. Refused where a condition
/// does not decode.
pub open spec fn shape_named(name: Seq<char>) -> Result<ShapeModel, Fault> {
    if name.contains(PARTIAL_SEP) {
        let (field, encoded) = cut(name, PARTIAL_SEP);
        match decoded_hex(encoded) {
            Ok(condition) => Ok(ShapeModel::Partial { field, condition, encoded }),
            Err(f) => Err(f),
        }
    } else if name.contains(COVER_SEP) {
        let (field, covers) = cut(name, COVER_SEP);
        Ok(ShapeModel::Covering { field, covers: pieces(covers, COMPOSITE_SEP) })
    } else if name.contains(COMPOSITE_SEP) {
        Ok(ShapeModel::Composite { fields: pieces(name, COMPOSITE_SEP) })
    } else {
        Ok(ShapeModel::Ordinary { field: name })
    }
}

fn shape_from(name: &str) -> (r: Result<Shape, Error>)
    ensures
        match shape_named(name@) {
            Ok(m) => r matches Ok(s) && s@ == m,
            Err(f) => r matches Err(e) && e@ == ErrorModel::Corruption(fault_text(f)),
        },
{
    if has_char(name, PARTIAL_SEP) {
        let (field, encoded) = cut_at(name, PARTIAL_SEP);
        match decode_expr_hex(encoded.as_str()) {
            Ok(condition) => Ok(Shape::Partial { field, condition, encoded }),
            Err(e) => Err(e),
        }
    } else if has_char(name, COVER_SEP) {
        let (field, covers) = cut_at(name, COVER_SEP);
        Ok(Shape::Covering { field, covers: split_on(covers.as_str(), COMPOSITE_SEP) })
    } else if has_char(name, COMPOSITE_SEP) {
        Ok(Shape::Composite { fields: split_on(name, COMPOSITE_SEP) })
    } else {
        Ok(Shape::Ordinary { field: name.to_owned() })
    }
}

// -- the indexes of a collection ----------------------------------------------

/// Whether an index goes by a name and is of a kind.
pub open spec fn is_index(m: IndexModel, name: Seq<char>, kind: IndexKind) -> bool {
    shape_name(m.shape) == name && m.kind == kind
}

pub open spec fn exists_index(s: Seq<IndexModel>, name: Seq<char>, kind: IndexKind) -> bool {
    exists|i: int| 0 <= i < s.len() && is_index(#[trigger] s[i], name, kind)
}

/// The first index that goes by a name.
pub open spec fn first_named(s: Seq<IndexModel>, name: Seq<char>) -> Option<IndexModel>
    decreases s.len(),
{
    if s.len() == 0 {
        None
    } else if shape_name(s[0].shape) == name {
        Some(s[0])
    } else {
        first_named(s.drop_first(), name)
    }
}

/// The first bitmap that goes by a name and has few keys.
pub open spec fn first_small_bitmap(s: Seq<IndexModel>, name: Seq<char>, few: nat) -> Option<
    IndexModel,
>
    decreases s.len(),
{
    if s.len() == 0 {
        None
    } else if shape_name(s[0].shape) == name && s[0].kind == IndexKind::Bitmap && keys_in(
        s[0].entries,
    ) <= few {
        Some(s[0])
    } else {
        first_small_bitmap(s.drop_first(), name, few)
    }
}

/// The index that answers for a field: a bitmap where the field has few keys, for
/// it is as fast and far smaller; else the first made.
pub open spec fn answering(s: Seq<IndexModel>, name: Seq<char>, few: nat) -> Option<IndexModel> {
    match first_small_bitmap(s, name, few) {
        Some(m) => Some(m),
        None => first_named(s, name),
    }
}

/// The first index that goes by a name and can be walked in order.
pub open spec fn first_ordered(s: Seq<IndexModel>, name: Seq<char>) -> Option<IndexModel>
    decreases s.len(),
{
    if s.len() == 0 {
        None
    } else if shape_name(s[0].shape) == name && ordered_kind(s[0].kind) {
        Some(s[0])
    } else {
        first_ordered(s.drop_first(), name)
    }
}

/// Whether an index on a field carries every field needed.
pub open spec fn serves(m: IndexModel, field: Seq<char>, needed: Seq<Seq<char>>) -> bool {
    m.shape matches ShapeModel::Covering { field: f, covers } && covers.len() > 0 && f == field
        && forall|i: int| 0 <= i < needed.len() ==> covers.contains(#[trigger] needed[i])
}

/// The first index on a field that carries every field needed, where `ordered`
/// asks for one that can be walked in order.
pub open spec fn first_serving(
    s: Seq<IndexModel>,
    field: Seq<char>,
    needed: Seq<Seq<char>>,
    ordered: bool,
) -> Option<IndexModel>
    decreases s.len(),
{
    if s.len() == 0 {
        None
    } else if (ordered ==> ordered_kind(s[0].kind)) && serves(s[0], field, needed) {
        Some(s[0])
    } else {
        first_serving(s.drop_first(), field, needed, ordered)
    }
}

proof fn lemma_first_ordered(s: Seq<IndexModel>, name: Seq<char>)
    ensures
        first_ordered(s, name) matches Some(m) ==> ordered_kind(m.kind),
    decreases s.len(),
{
    if s.len() > 0 {
        lemma_first_ordered(s.drop_first(), name);
    }
}

proof fn lemma_first_serving(s: Seq<IndexModel>, field: Seq<char>, needed: Seq<Seq<char>>)
    ensures
        first_serving(s, field, needed, true) matches Some(m) ==> ordered_kind(m.kind),
    decreases s.len(),
{
    if s.len() > 0 {
        lemma_first_serving(s.drop_first(), field, needed);
    }
}

/// The rows an index carries for ids, in their order. An id it carries nothing
/// for is passed over.
pub open spec fn carried_rows(m: IndexModel, ids: Seq<u64>) -> RowsModel
    decreases ids.len(),
{
    if ids.len() == 0 {
        Seq::empty()
    } else {
        let before = carried_rows(m, ids.drop_last());
        match find(m.carried, ids.last()) {
            Some(r) => before.push((ids.last(), r)),
            None => before,
        }
    }
}

/// The indexes but those of a name and kind.
pub open spec fn without_index(s: Seq<IndexModel>, name: Seq<char>, kind: IndexKind) -> Seq<
    IndexModel,
>
    decreases s.len(),
{
    if s.len() == 0 {
        Seq::empty()
    } else {
        let before = without_index(s.drop_last(), name, kind);
        if is_index(s.last(), name, kind) {
            before
        } else {
            before.push(s.last())
        }
    }
}

fn place_named(list: &Vec<Index>, name: &str) -> (at: Option<usize>)
    ensures
        match first_named(index_models(list@), name@) {
            Some(m) => at matches Some(i) && i < list@.len() && list@[i as int]@ == m,
            None => at is None,
        },
{
    let ghost s = index_models(list@);
    let mut i: usize = 0;
    assert(s.skip(0) =~= s);
    while i < list.len()
        invariant
            i <= list@.len(),
            s == index_models(list@),
            first_named(s, name@) == first_named(s.skip(i as int), name@),
        decreases list.len() - i,
    {
        let n = list[i].field();
        assert(s.skip(i as int)[0] == list@[i as int]@);
        if str_eq(n.as_str(), name) {
            return Some(i);
        }
        assert(s.skip(i as int).drop_first() =~= s.skip(i + 1));
        i += 1;
    }
    None
}

fn place_answering(list: &Vec<Index>, name: &str, few: usize) -> (at: Option<usize>)
    ensures
        match answering(index_models(list@), name@, few as nat) {
            Some(m) => at matches Some(i) && i < list@.len() && list@[i as int]@ == m,
            None => at is None,
        },
{
    let ghost s = index_models(list@);
    let mut i: usize = 0;
    assert(s.skip(0) =~= s);
    while i < list.len()
        invariant
            i <= list@.len(),
            s == index_models(list@),
            first_small_bitmap(s, name@, few as nat) == first_small_bitmap(
                s.skip(i as int),
                name@,
                few as nat,
            ),
        decreases list.len() - i,
    {
        let n = list[i].field();
        assert(s.skip(i as int)[0] == list@[i as int]@);
        let bitmap = match list[i].kind() {
            IndexKind::Bitmap => true,
            _ => false,
        };
        if str_eq(n.as_str(), name) && bitmap && list[i].key_count() <= few {
            return Some(i);
        }
        assert(s.skip(i as int).drop_first() =~= s.skip(i + 1));
        i += 1;
    }
    place_named(list, name)
}

fn place_ordered(list: &Vec<Index>, name: &str) -> (at: Option<usize>)
    ensures
        match first_ordered(index_models(list@), name@) {
            Some(m) => at matches Some(i) && i < list@.len() && list@[i as int]@ == m,
            None => at is None,
        },
{
    let ghost s = index_models(list@);
    let mut i: usize = 0;
    assert(s.skip(0) =~= s);
    while i < list.len()
        invariant
            i <= list@.len(),
            s == index_models(list@),
            first_ordered(s, name@) == first_ordered(s.skip(i as int), name@),
        decreases list.len() - i,
    {
        let n = list[i].field();
        assert(s.skip(i as int)[0] == list@[i as int]@);
        if str_eq(n.as_str(), name) && list[i].kind().supports_range() {
            return Some(i);
        }
        assert(s.skip(i as int).drop_first() =~= s.skip(i + 1));
        i += 1;
    }
    None
}

fn can_serve(idx: &Index, field: &str, needed: &Vec<String>) -> (r: bool)
    ensures
        r == serves(idx@, field@, texts(needed@)),
{
    match idx.shape() {
        Shape::Covering { field: f, covers } => {
            assert(texts(covers@).len() == covers@.len());
            if covers.len() == 0 || !str_eq(f.as_str(), field) {
                return false;
            }
            let ghost all = texts(needed@);
            let mut i: usize = 0;
            while i < needed.len()
                invariant
                    i <= needed@.len(),
                    all == texts(needed@),
                    idx@.shape == (ShapeModel::Covering { field: f@, covers: texts(covers@) }),
                    forall|k: int| 0 <= k < i ==> texts(covers@).contains(#[trigger] all[k]),
                decreases needed.len() - i,
            {
                assert(all[i as int] == needed@[i as int]@);
                if !contains_str(covers, needed[i].as_str()) {
                    return false;
                }
                i += 1;
            }
            true
        },
        _ => false,
    }
}

fn place_serving(list: &Vec<Index>, field: &str, needed: &Vec<String>, ordered: bool) -> (at:
    Option<usize>)
    ensures
        match first_serving(index_models(list@), field@, texts(needed@), ordered) {
            Some(m) => at matches Some(i) && i < list@.len() && list@[i as int]@ == m,
            None => at is None,
        },
{
    let ghost s = index_models(list@);
    let ghost want = texts(needed@);
    let mut i: usize = 0;
    assert(s.skip(0) =~= s);
    while i < list.len()
        invariant
            i <= list@.len(),
            s == index_models(list@),
            want == texts(needed@),
            first_serving(s, field@, want, ordered) == first_serving(
                s.skip(i as int),
                field@,
                want,
                ordered,
            ),
        decreases list.len() - i,
    {
        assert(s.skip(i as int)[0] == list@[i as int]@);
        if (!ordered || list[i].kind().supports_range()) && can_serve(&list[i], field, needed) {
            return Some(i);
        }
        assert(s.skip(i as int).drop_first() =~= s.skip(i + 1));
        i += 1;
    }
    None
}

fn carried(idx: &Index, ids: &Vec<u64>) -> (out: Rows)
    ensures
        rows_model(out@) == carried_rows(idx@, ids@),
{
    let mut out: Rows = Vec::new();
    let mut i: usize = 0;
    assert(ids@.take(0) =~= Seq::empty());
    assert(rows_model(out@) =~= Seq::empty());
    while i < ids.len()
        invariant
            i <= ids@.len(),
            rows_model(out@) == carried_rows(idx@, ids@.take(i as int)),
        decreases ids.len() - i,
    {
        assert(ids@.take(i + 1).drop_last() =~= ids@.take(i as int));
        assert(ids@.take(i + 1).last() == ids@[i as int]);
        match idx.covered(ids[i]) {
            Some(r) => {
                let ghost before = rows_model(out@);
                out.push((ids[i], r.dup()));
                assert(rows_model(out@) =~= before.push((ids@[i as int], r.model())));
            },
            None => {},
        }
        i += 1;
    }
    assert(ids@.take(i as int) =~= ids@);
    out
}

impl Derived {
    /// Whether a collection has an index of a name and kind.
    pub fn index_exists(&self, collection: &str, name: &str, kind: IndexKind) -> (r: bool)
        requires
            self.wf(),
        ensures
            r == exists_index(self.indexes_of(collection@), name@, kind),
    {
        match self.indexes.get(collection) {
            None => false,
            Some(list) => {
                let ghost s = index_models(list@);
                let mut i: usize = 0;
                while i < list.len()
                    invariant
                        i <= list@.len(),
                        s == index_models(list@),
                        s == self.indexes_of(collection@),
                        forall|k: int| 0 <= k < i ==> !is_index(#[trigger] s[k], name@, kind),
                    decreases list.len() - i,
                {
                    let n = list[i].field();
                    assert(s[i as int] == list@[i as int]@);
                    if str_eq(n.as_str(), name) && list[i].kind() == kind {
                        assert(is_index(s[i as int], name@, kind));
                        return true;
                    }
                    i += 1;
                }
                false
            },
        }
    }

    pub fn has_index(&self, collection: &str, name: &str) -> (r: bool)
        requires
            self.wf(),
        ensures
            r == (first_named(self.indexes_of(collection@), name@) is Some),
    {
        match self.indexes.get(collection) {
            None => false,
            Some(list) => place_named(list, name).is_some(),
        }
    }

    pub fn index_kind(&self, collection: &str, name: &str) -> (r: Option<IndexKind>)
        requires
            self.wf(),
        ensures
            r == match first_named(self.indexes_of(collection@), name@) {
                Some(m) => Some(m.kind),
                None => None,
            },
    {
        match self.indexes.get(collection) {
            None => None,
            Some(list) => match place_named(list, name) {
                Some(i) => Some(list[i].kind()),
                None => None,
            },
        }
    }

    fn add_index(&mut self, collection: &str, idx: Index)
        requires
            old(self).wf(),
            idx.wf(),
        ensures
            final(self).wf(),
            final(self).direct == old(self).direct,
            final(self).columns == old(self).columns,
            final(self).views == old(self).views,
            final(self).indexes_of(collection@) == old(self).indexes_of(collection@).push(idx@),
            same_elsewhere(*old(self), *final(self), collection@),
    {
        let ghost start = *self;
        let ghost before = self.indexes;
        match self.indexes.position(collection) {
            Some(k) => {
                self.indexes.pairs[k].1.push(idx);
                proof {
                    lemma_value_changed(before, self.indexes, k as int);
                    let was = before.of(collection@)->Some_0;
                    let is = self.indexes.of(collection@)->Some_0;
                    assert(is@ =~= was@.push(idx));
                    assert(index_models(is@) =~= index_models(was@).push(idx@));
                    assert forall|i: int| 0 <= i < is@.len() implies (#[trigger] is@[i]).wf() by {
                        if i < was@.len() {
                            assert(was@[i].wf());
                        }
                    }
                }
            },
            None => {
                let mut list: Vec<Index> = Vec::new();
                list.push(idx);
                assert(index_models(list@) =~= Seq::<IndexModel>::empty().push(idx@));
                self.indexes.put(collection, list);
            },
        }
        proof {
            assert forall|other: Seq<char>| other != collection@ implies {
                &&& #[trigger] self.indexes_of(other) == start.indexes_of(other)
                &&& self.array_of(other) == start.array_of(other)
                &&& self.columns_of(other) == start.columns_of(other)
            } by {
                assert(self.indexes.of(other) == start.indexes.of(other));
            }
        }
    }

    /// Make the index a definition's name asks for, from cached entries where
    /// they can be used and from the records otherwise. Returns whether one was
    /// made: not where it is there already. A covering or partial index is never
    /// made from cached entries, for they hold neither what is carried nor which
    /// records the condition kept.
    pub fn create_index_from<E: Fn(&Expr, &Record) -> bool>(
        &mut self,
        collection: &str,
        known: bool,
        name: &str,
        kind: IndexKind,
        cached: Option<&Vec<(Value, Vec<u64>)>>,
        rows: &Rows,
        eval: &E,
    ) -> (r: Result<bool, Error>)
        requires
            old(self).wf(),
            ascending(rows_model(rows@)),
            askable(*eval),
        ensures
            final(self).wf(),
            index_outcome(
                *old(self),
                *final(self),
                r,
                collection@,
                known,
                name@,
                kind,
                optional_groups(cached),
                rows_model(rows@),
                *eval,
            ),
    {
        if !known {
            return Err(Error::NoSuchCollection(collection.to_owned()));
        }
        if self.index_exists(collection, name, kind) {
            return Ok(false);
        }
        let shape = match shape_from(name) {
            Ok(s) => s,
            Err(e) => {
                return Err(e);
            },
        };
        let cacheable = match &shape {
            Shape::Ordinary { .. } => true,
            Shape::Composite { .. } => true,
            _ => false,
        };
        let ghost before = self.indexes_of(collection@);
        let idx = match cached {
            Some(entries) => {
                if cacheable {
                    restore_index(shape, kind, entries)
                } else {
                    build_index(shape, kind, rows, eval)
                }
            },
            None => build_index(shape, kind, rows, eval),
        };
        proof {
            idx.an_index_is_in_order();
        }
        self.add_index(collection, idx);
        assert(self.indexes_of(collection@).last() == idx@);
        Ok(true)
    }

    /// Make an index over several fields at once.
    pub fn create_composite_index<E: Fn(&Expr, &Record) -> bool>(
        &mut self,
        collection: &str,
        known: bool,
        fields: Vec<String>,
        rows: &Rows,
        eval: &E,
    ) -> (r: Result<bool, Error>)
        requires
            old(self).wf(),
            ascending(rows_model(rows@)),
            askable(*eval),
        ensures
            final(self).wf(),
            composite_outcome(
                *old(self),
                *final(self),
                r,
                collection@,
                known,
                texts(fields@),
                rows_model(rows@),
                *eval,
            ),
    {
        if !known {
            return Err(Error::NoSuchCollection(collection.to_owned()));
        }
        if fields.len() < 2 {
            return Err(
                Error::InvalidOptimization(
                    "a composite index needs at least two fields; use create_index for one".to_owned(),
                ),
            );
        }
        let name = composite_name(&fields);
        if self.index_exists(collection, name.as_str(), IndexKind::Hash) {
            return Ok(false);
        }
        let idx = build_index(Shape::Composite { fields }, IndexKind::Hash, rows, eval);
        self.add_index(collection, idx);
        assert(self.indexes_of(collection@).last() == idx@);
        Ok(true)
    }

    /// Make an index on a field that also carries others, and always the field
    /// itself: a filter above the lookup tests it again.
    pub fn create_covering_index<E: Fn(&Expr, &Record) -> bool>(
        &mut self,
        collection: &str,
        known: bool,
        field: &str,
        covers: &Vec<String>,
        kind: IndexKind,
        rows: &Rows,
        eval: &E,
    ) -> (r: Result<bool, Error>)
        requires
            old(self).wf(),
            ascending(rows_model(rows@)),
            askable(*eval),
        ensures
            final(self).wf(),
            covering_outcome(
                *old(self),
                *final(self),
                r,
                collection@,
                known,
                field@,
                texts(covers@),
                kind,
                rows_model(rows@),
                *eval,
            ),
    {
        if !known {
            return Err(Error::NoSuchCollection(collection.to_owned()));
        }
        if covers.len() == 0 {
            return Err(
                Error::InvalidOptimization(
                    "a covering index must carry at least one field; use create_index for none".to_owned(),
                ),
            );
        }
        let mut all = crate::text::dup_strings(covers);
        all.push(field.to_owned());
        assert(texts(all@) =~= texts(covers@).push(field@));
        let shape = Shape::Covering { field: field.to_owned(), covers: sort_dedup(&all) };
        let name = shape.name();
        if self.index_exists(collection, name.as_str(), kind) {
            return Ok(false);
        }
        let idx = build_index(shape, kind, rows, eval);
        self.add_index(collection, idx);
        assert(self.indexes_of(collection@).last() == idx@);
        Ok(true)
    }

    /// Make an index on a field that holds only the records a condition keeps.
    pub fn create_partial_index<E: Fn(&Expr, &Record) -> bool>(
        &mut self,
        collection: &str,
        known: bool,
        field: &str,
        condition: Expr,
        kind: IndexKind,
        rows: &Rows,
        eval: &E,
    ) -> (r: Result<bool, Error>)
        requires
            old(self).wf(),
            ascending(rows_model(rows@)),
            askable(*eval),
        ensures
            final(self).wf(),
            partial_outcome(
                *old(self),
                *final(self),
                r,
                collection@,
                known,
                field@,
                condition.model(),
                kind,
                rows_model(rows@),
                *eval,
            ),
    {
        if !known {
            return Err(Error::NoSuchCollection(collection.to_owned()));
        }
        let encoded = match encode_expr_hex(&condition) {
            Ok(s) => s,
            Err(e) => {
                return Err(e);
            },
        };
        let shape = Shape::Partial { field: field.to_owned(), condition, encoded };
        let name = shape.name();
        if self.index_exists(collection, name.as_str(), kind) {
            return Ok(false);
        }
        let idx = build_index(shape, kind, rows, eval);
        self.add_index(collection, idx);
        assert(self.indexes_of(collection@).last() == idx@);
        Ok(true)
    }

    /// Drop the indexes of a name and kind. Returns whether there was one.
    pub fn drop_index(&mut self, collection: &str, name: &str, kind: IndexKind) -> (changed: bool)
        requires
            old(self).wf(),
        ensures
            final(self).wf(),
            only_indexes(*old(self), *final(self), collection@),
            final(self).indexes_of(collection@) == without_index(
                old(self).indexes_of(collection@),
                name@,
                kind,
            ),
            changed == (final(self).indexes_of(collection@).len() != old(self).indexes_of(
                collection@,
            ).len()),
    {
        let ghost start = *self;
        let ghost before = self.indexes;
        match self.indexes.position(collection) {
            None => false,
            Some(k) => {
                let n: usize = self.indexes.pairs[k].1.len();
                drop_named(&mut self.indexes.pairs[k].1, name, kind);
                let m: usize = self.indexes.pairs[k].1.len();
                proof {
                    lemma_value_changed(before, self.indexes, k as int);
                    let was = before.of(collection@)->Some_0;
                    let is = self.indexes.of(collection@)->Some_0;
                    assert(index_models(was@).len() == n);
                    assert(index_models(is@).len() == m);
                    assert forall|other: Seq<char>| other != collection@ implies {
                        &&& #[trigger] self.indexes_of(other) == start.indexes_of(other)
                        &&& self.array_of(other) == start.array_of(other)
                        &&& self.columns_of(other) == start.columns_of(other)
                    } by {
                        assert(self.indexes.of(other) == start.indexes.of(other));
                    }
                }
                n != m
            },
        }
    }

    /// The ids of the records that hold a key, by an index on the field. Nothing
    /// where there is none.
    pub fn index_lookup(&self, collection: &str, field: &str, key: &Value, few: usize) -> (r:
        Option<Vec<u64>>)
        requires
            self.wf(),
        ensures
            match answering(self.indexes_of(collection@), field@, few as nat) {
                Some(m) => r matches Some(ids) && ids@ == ids_under(m.entries, key.model()),
                None => r is None,
            },
    {
        match self.indexes.get(collection) {
            None => None,
            Some(list) => {
                assert(self.indexes.of(collection@) == Some(*list));
                match place_answering(list, field, few) {
                    Some(i) => {
                        assert(list@[i as int].wf());
                        Some(list[i].lookup(key))
                    },
                    None => None,
                }
            },
        }
    }

    /// The ids under a key of the first index that goes by a name. Nothing where
    /// there is none.
    pub fn first_lookup(&self, collection: &str, name: &str, key: &Value) -> (r: Option<Vec<u64>>)
        requires
            self.wf(),
        ensures
            match first_named(self.indexes_of(collection@), name@) {
                Some(m) => r matches Some(ids) && ids@ == ids_under(m.entries, key.model()),
                None => r is None,
            },
    {
        match self.indexes.get(collection) {
            None => None,
            Some(list) => {
                assert(self.indexes.of(collection@) == Some(*list));
                match place_named(list, name) {
                    Some(i) => {
                        assert(list@[i as int].wf());
                        Some(list[i].lookup(key))
                    },
                    None => None,
                }
            },
        }
    }

    /// The ids of the records that hold the values of several fields.
    pub fn composite_lookup(&self, collection: &str, fields: &Vec<String>, key: &Value) -> (r:
        Option<Vec<u64>>)
        requires
            self.wf(),
        ensures
            match first_named(self.indexes_of(collection@), composite_text(texts(fields@))) {
                Some(m) => r matches Some(ids) && ids@ == ids_under(m.entries, key.model()),
                None => r is None,
            },
    {
        let name = composite_name(fields);
        self.first_lookup(collection, name.as_str(), key)
    }

    /// The ids of the records whose value lies in a range, in the order of their
    /// values.
    pub fn index_range(&self, collection: &str, field: &str, lo: &Limit, hi: &Limit) -> (r: Option<
        Vec<u64>,
    >)
        requires
            self.wf(),
        ensures
            match first_ordered(self.indexes_of(collection@), field@) {
                Some(m) => r matches Some(ids) && ids@ == ids_between(m.entries, lo@, hi@),
                None => r is None,
            },
    {
        match self.indexes.get(collection) {
            None => None,
            Some(list) => {
                assert(self.indexes.of(collection@) == Some(*list));
                proof {
                    lemma_first_ordered(index_models(list@), field@);
                }
                match place_ordered(list, field) {
                    Some(i) => {
                        assert(list@[i as int].wf());
                        list[i].range(lo, hi)
                    },
                    None => None,
                }
            },
        }
    }

    /// Rows straight from an index that carries every field needed. Nothing where
    /// none does: a row that lacks a field needed is no answer.
    pub fn covering_lookup(
        &self,
        collection: &str,
        field: &str,
        key: &Value,
        needed: &Vec<String>,
    ) -> (r: Option<Rows>)
        requires
            self.wf(),
        ensures
            match first_serving(self.indexes_of(collection@), field@, texts(needed@), false) {
                Some(m) => r matches Some(rows) && rows_model(rows@) == carried_rows(
                    m,
                    ids_under(m.entries, key.model()),
                ),
                None => r is None,
            },
    {
        match self.indexes.get(collection) {
            None => None,
            Some(list) => {
                assert(self.indexes.of(collection@) == Some(*list));
                match place_serving(list, field, needed, false) {
                    Some(i) => {
                        assert(list@[i as int].wf());
                        let ids = list[i].lookup(key);
                        Some(carried(&list[i], &ids))
                    },
                    None => None,
                }
            },
        }
    }

    /// As [`Derived::covering_lookup`], for a range: only an index that can be
    /// walked in order answers.
    pub fn covering_range(
        &self,
        collection: &str,
        field: &str,
        lo: &Limit,
        hi: &Limit,
        needed: &Vec<String>,
    ) -> (r: Option<Rows>)
        requires
            self.wf(),
        ensures
            match first_serving(self.indexes_of(collection@), field@, texts(needed@), true) {
                Some(m) => r matches Some(rows) && rows_model(rows@) == carried_rows(
                    m,
                    ids_between(m.entries, lo@, hi@),
                ),
                None => r is None,
            },
    {
        match self.indexes.get(collection) {
            None => None,
            Some(list) => {
                assert(self.indexes.of(collection@) == Some(*list));
                proof {
                    lemma_first_serving(index_models(list@), field@, texts(needed@));
                }
                match place_serving(list, field, needed, true) {
                    Some(i) => {
                        assert(list@[i as int].wf());
                        match list[i].range(lo, hi) {
                            Some(ids) => Some(carried(&list[i], &ids)),
                            None => None,
                        }
                    },
                    None => None,
                }
            },
        }
    }
}

/// Whether two states differ in the indexes of one collection at most.
pub open spec fn only_indexes(a: Derived, b: Derived, c: Seq<char>) -> bool {
    &&& b.direct == a.direct
    &&& b.columns == a.columns
    &&& b.views == a.views
    &&& same_elsewhere(a, b, c)
}

pub open spec fn optional_groups(cached: Option<&Vec<(Value, Vec<u64>)>>) -> Option<Seq<Group>> {
    match cached {
        Some(v) => Some(group_models(v@)),
        None => None,
    }
}

/// What making the index a name asks for comes to.
pub open spec fn index_outcome<E: Fn(&Expr, &Record) -> bool>(
    a: Derived,
    b: Derived,
    r: Result<bool, Error>,
    c: Seq<char>,
    known: bool,
    name: Seq<char>,
    kind: IndexKind,
    cached: Option<Seq<Group>>,
    rows: RowsModel,
    eval: E,
) -> bool {
    &&& only_indexes(a, b, c)
    &&& {
        if !known {
            r matches Err(e) && e@ == ErrorModel::NoSuchCollection(c)
                && b.indexes == a.indexes
        } else if exists_index(a.indexes_of(c), name, kind) {
            r == Ok::<bool, Error>(false) && b.indexes == a.indexes
        } else {
            match shape_named(name) {
                Err(f) => r matches Err(e) && e@ == ErrorModel::Corruption(fault_text(f))
                    && b.indexes == a.indexes,
                Ok(shape) => {
                    let new = b.indexes_of(c).last();
                    &&& r == Ok::<bool, Error>(true)
                    &&& b.indexes_of(c) == a.indexes_of(
                        c,
                    ).push(new)
                    &&& new.shape == shape
                    &&& new.kind == kind
                    &&& crate::index::index_ok(new)
                    &&& if cached is Some && !(shape is Covering) && !(shape is Partial) {
                        holds_groups(new.entries, cached->Some_0)
                            && new.carried == RowsModel::empty()
                    } else {
                        forall|keeps: Keeps| #[trigger]
                            evaluates(eval, keeps) ==> faithful(
                                new,
                                keeps,
                                records_of(rows),
                            )
                    }
                },
            }
        }
    }
}

/// What making an index over several fields comes to.
pub open spec fn composite_outcome<E: Fn(&Expr, &Record) -> bool>(
    a: Derived,
    b: Derived,
    r: Result<bool, Error>,
    c: Seq<char>,
    known: bool,
    fields: Seq<Seq<char>>,
    rows: RowsModel,
    eval: E,
) -> bool {
    &&& only_indexes(a, b, c)
    &&& {
        if !known {
            r matches Err(e) && e@ == ErrorModel::NoSuchCollection(c)
                && b.indexes == a.indexes
        } else if fields.len() < 2 {
            r matches Err(e) && e@ == ErrorModel::InvalidOptimization(too_few_fields())
                && b.indexes == a.indexes
        } else if exists_index(
            a.indexes_of(c),
            composite_text(fields),
            IndexKind::Hash,
        ) {
            r == Ok::<bool, Error>(false) && b.indexes == a.indexes
        } else {
            r == Ok::<bool, Error>(true) && made(
                a.indexes_of(c),
                b.indexes_of(c),
                ShapeModel::Composite { fields: fields },
                IndexKind::Hash,
                eval,
                rows,
            )
        }
    }
}

/// What making an index that carries fields comes to.
pub open spec fn covering_outcome<E: Fn(&Expr, &Record) -> bool>(
    a: Derived,
    b: Derived,
    r: Result<bool, Error>,
    c: Seq<char>,
    known: bool,
    field: Seq<char>,
    covers: Seq<Seq<char>>,
    kind: IndexKind,
    rows: RowsModel,
    eval: E,
) -> bool {
    &&& only_indexes(a, b, c)
    &&& {
        let shape = ShapeModel::Covering {
                field: field,
                covers: sorted_set(covers.push(field)),
            };
            if !known {
                r matches Err(e) && e@ == ErrorModel::NoSuchCollection(c)
                    && b.indexes == a.indexes
            } else if covers.len() == 0 {
                r matches Err(e) && e@ == ErrorModel::InvalidOptimization(nothing_carried())
                    && b.indexes == a.indexes
            } else if exists_index(
                a.indexes_of(c),
                shape_name(shape),
                kind,
            ) {
                r == Ok::<bool, Error>(false) && b.indexes == a.indexes
            } else {
                r == Ok::<bool, Error>(true) && made(
                    a.indexes_of(c),
                    b.indexes_of(c),
                    shape,
                    kind,
                    eval,
                    rows,
                )
            }
    }
}

/// What making an index over part of a collection comes to.
pub open spec fn partial_outcome<E: Fn(&Expr, &Record) -> bool>(
    a: Derived,
    b: Derived,
    r: Result<bool, Error>,
    c: Seq<char>,
    known: bool,
    field: Seq<char>,
    condition: ExprModel,
    kind: IndexKind,
    rows: RowsModel,
    eval: E,
) -> bool {
    &&& only_indexes(a, b, c)
    &&& {
        let shape = ShapeModel::Partial {
                field: field,
                condition: condition,
                encoded: hex_text(expr_bytes(condition)),
            };
            if !known {
                r matches Err(e) && e@ == ErrorModel::NoSuchCollection(c)
                    && b.indexes == a.indexes
            } else if !within(condition, levels_allowed()) {
                r matches Err(e) && e@ == ErrorModel::InvalidOptimization(
                    fault_text(Fault::TooDeep),
                ) && b.indexes == a.indexes
            } else if exists_index(
                a.indexes_of(c),
                shape_name(shape),
                kind,
            ) {
                r == Ok::<bool, Error>(false) && b.indexes == a.indexes
            } else {
                r == Ok::<bool, Error>(true) && made(
                    a.indexes_of(c),
                    b.indexes_of(c),
                    shape,
                    kind,
                    eval,
                    rows,
                )
            }
    }
}

/// Whether an index of a shape and kind was made from the records.
pub open spec fn made<E: Fn(&Expr, &Record) -> bool>(
    before: Seq<IndexModel>,
    after: Seq<IndexModel>,
    shape: ShapeModel,
    kind: IndexKind,
    eval: E,
    rows: RowsModel,
) -> bool {
    let new = after.last();
    &&& after == before.push(new)
    &&& new.shape == shape
    &&& new.kind == kind
    &&& forall|keeps: Keeps| #[trigger]
        evaluates(eval, keeps) ==> faithful(new, keeps, records_of(rows))
}

pub open spec fn too_few_fields() -> Seq<char> {
    "a composite index needs at least two fields; use create_index for one"@
}

pub open spec fn nothing_carried() -> Seq<char> {
    "a covering index must carry at least one field; use create_index for none"@
}

fn drop_named(list: &mut Vec<Index>, name: &str, kind: IndexKind)
    requires
        all_ordered(old(list)@),
    ensures
        all_ordered(final(list)@),
        index_models(final(list)@) == without_index(index_models(old(list)@), name@, kind),
{
    let ghost all = list@;
    let ghost s = index_models(all);
    let total: usize = list.len();
    let mut at: usize = 0;
    let mut seen: usize = 0;
    assert(s.take(0) =~= Seq::empty());
    assert(all.skip(0) =~= all);
    while seen < total
        invariant
            at <= seen <= total,
            total == all.len(),
            s == index_models(all),
            all_ordered(list@),
            list@.len() == at + (total - seen),
            index_models(list@.take(at as int)) == without_index(
                s.take(seen as int),
                name@,
                kind,
            ),
            list@.skip(at as int) == all.skip(seen as int),
        decreases total - seen,
    {
        let ghost before = list@;
        assert(before[at as int] == before.skip(at as int)[0]);
        assert(before[at as int] == all[seen as int]);
        proof {
            assert(s.take(seen + 1).drop_last() =~= s.take(seen as int));
            assert(s.take(seen + 1).last() == all[seen as int]@);
        }
        let n = list[at].field();
        if str_eq(n.as_str(), name) && list[at].kind() == kind {
            list.remove(at);
            proof {
                assert(list@.take(at as int) =~= before.take(at as int));
                assert(list@.skip(at as int) =~= all.skip(seen + 1)) by {
                    assert forall|i: int| 0 <= i < total - seen - 1 implies #[trigger] list@.skip(
                        at as int,
                    )[i] == all.skip(seen + 1)[i] by {
                        assert(before.skip(at as int)[i + 1] == all.skip(seen as int)[i + 1]);
                    }
                }
                assert forall|i: int| 0 <= i < list@.len() implies (#[trigger] list@[i]).wf() by {
                    assert(before[if i < at { i } else { i + 1 }].wf());
                }
            }
        } else {
            proof {
                let head = before.take(at as int);
                assert(before.take(at + 1) =~= head.push(before[at as int]));
                assert(index_models(before.take(at + 1)) =~= index_models(head).push(
                    all[seen as int]@,
                ));
                assert(before.skip(at + 1) =~= all.skip(seen + 1)) by {
                    assert forall|i: int| 0 <= i < total - seen - 1 implies #[trigger] before.skip(
                        at + 1,
                    )[i] == all.skip(seen + 1)[i] by {
                        assert(before.skip(at as int)[i + 1] == all.skip(seen as int)[i + 1]);
                    }
                }
            }
            at += 1;
        }
        seen += 1;
    }
    assert(list@.take(at as int) =~= list@);
    assert(s.take(seen as int) =~= s);
}

/// A row that a faithful covering index gives is the record's own: the covered
/// fields as they are stored, and so every field that was needed.
pub proof fn a_covering_row_is_the_records_own(
    m: IndexModel,
    keeps: Keeps,
    t: Records,
    needed: Seq<Seq<char>>,
    field: Seq<char>,
    ids: Seq<u64>,
    i: int,
    name: Seq<char>,
)
    requires
        faithful(m, keeps, t),
        serves(m, field, needed),
        0 <= i < carried_rows(m, ids).len(),
        needed.contains(name),
    ensures
        ({
            let (id, r) = carried_rows(m, ids)[i];
            t.dom().contains(id) && crate::record::field_of(r, name) == crate::record::field_of(
                t[id],
                name,
            )
        }),
    decreases ids.len(),
{
    let rest = ids.drop_last();
    let before = carried_rows(m, rest);
    if i < before.len() {
        a_covering_row_is_the_records_own(m, keeps, t, needed, field, rest, i, name);
    } else {
        let id = ids.last();
        let p = find(m.carried, id)->Some_0;
        let covers = m.shape->covers;
        assert(key_under(m.shape, keeps, t, id) is Some && projects(covers, t[id], p));
        let k = choose|k: int| 0 <= k < needed.len() && needed[k] == name;
        assert(covers.contains(needed[k]));
    }
}

/// Entries in order are the same where they hold the same.
pub proof fn lemma_same_entries(a: Seq<Entry>, b: Seq<Entry>)
    requires
        crate::index::entries_ordered(a),
        crate::index::entries_ordered(b),
        forall|e: Entry| #[trigger] a.contains(e) <==> b.contains(e),
    ensures
        a == b,
    decreases a.len(),
{
    if a.len() == 0 {
        if b.len() > 0 {
            assert(b.contains(b[0]));
            assert(a.contains(b[0]));
        }
        assert(a =~= b);
    } else {
        let x = a.last();
        assert(a[a.len() - 1] == x);
        assert(a.contains(x));
        assert(b.contains(x));
        let y = b.last();
        assert(b[b.len() - 1] == y);
        assert(b.contains(y));
        assert(a.contains(y));
        let i = choose|i: int| 0 <= i < b.len() && b[i] == x;
        let j = choose|j: int| 0 <= j < a.len() && a[j] == y;
        crate::index::lemma_entry_order(x, y, x);
        if x != y {
            assert(crate::index::entry_before(b[i], b[b.len() - 1]));
            assert(crate::index::entry_before(a[j], a[a.len() - 1]));
        }
        let (c, d) = (a.drop_last(), b.drop_last());
        assert forall|p: int, q: int|
            #![trigger c[p], c[q]]
            0 <= p < q < c.len() implies crate::index::entry_before(c[p], c[q]) by {
            assert(c[p] == a[p] && c[q] == a[q]);
        }
        assert forall|p: int, q: int|
            #![trigger d[p], d[q]]
            0 <= p < q < d.len() implies crate::index::entry_before(d[p], d[q]) by {
            assert(d[p] == b[p] && d[q] == b[q]);
        }
        assert forall|e: Entry| #[trigger] c.contains(e) <==> d.contains(e) by {
            crate::index::lemma_entry_order(x, x, x);
            if c.contains(e) {
                let k = choose|k: int| 0 <= k < c.len() && c[k] == e;
                assert(a[k] == e);
                assert(a.contains(e));
                assert(b.contains(e));
                let q = choose|q: int| 0 <= q < b.len() && b[q] == e;
                assert(crate::index::entry_before(a[k], a[a.len() - 1]));
                assert(q < d.len());
                assert(d[q] == e);
            }
            if d.contains(e) {
                let k = choose|k: int| 0 <= k < d.len() && d[k] == e;
                assert(b[k] == e);
                assert(b.contains(e));
                assert(a.contains(e));
                let q = choose|q: int| 0 <= q < a.len() && a[q] == e;
                assert(crate::index::entry_before(b[k], b[b.len() - 1]));
                assert(q < c.len());
                assert(c[q] == e);
            }
        }
        lemma_same_entries(c, d);
        assert(a =~= c.push(x));
        assert(b =~= d.push(y));
    }
}

/// An index put back from the entries of another holds exactly what the other
/// held.
pub proof fn a_restored_index_holds_what_was_cached(m: IndexModel, g: Seq<Group>, new: IndexModel)
    requires
        crate::index::index_ok(m),
        crate::index::index_ok(new),
        ungrouped(g) == m.entries,
        holds_groups(new.entries, g),
    ensures
        new.entries == m.entries,
{
    lemma_same_entries(new.entries, m.entries);
}

// -- what indexes there are ---------------------------------------------------

/// An index, by what it is of.
#[derive(Debug, PartialEq, Eq)]
pub struct IndexSpec {
    pub collection: String,
    pub field: String,
    pub kind: IndexKind,
}

/// What an [`IndexSpec`] says.
pub type SpecModel = (Seq<char>, Seq<char>, IndexKind);

impl View for IndexSpec {
    type V = SpecModel;

    open spec fn view(&self) -> SpecModel {
        (self.collection@, self.field@, self.kind)
    }
}

pub open spec fn spec_models(s: Seq<IndexSpec>) -> Seq<SpecModel> {
    s.map_values(|x: IndexSpec| x@)
}

/// By collection, then name, then how the kind is written.
pub open spec fn spec_before(a: SpecModel, b: SpecModel) -> bool {
    text_before(a.0, b.0) || (a.0 == b.0 && (text_before(a.1, b.1) || (a.1 == b.1 && text_before(
        kind_text(a.2),
        kind_text(b.2),
    ))))
}

pub open spec fn specs_ordered(s: Seq<SpecModel>) -> bool {
    forall|i: int, j: int|
        #![trigger s[i], s[j]]
        0 <= i < j < s.len() ==> !spec_before(s[j], s[i])
}

pub proof fn lemma_spec_order(a: SpecModel, b: SpecModel, c: SpecModel)
    ensures
        !(spec_before(a, b) && spec_before(b, a)),
        !spec_before(b, a) && !spec_before(c, b) ==> !spec_before(c, a),
{
    lemma_text_before_total(a.0, b.0);
    lemma_text_before_total(b.0, c.0);
    lemma_text_before_total(a.0, c.0);
    lemma_text_before_total(a.1, b.1);
    lemma_text_before_total(b.1, c.1);
    lemma_text_before_total(a.1, c.1);
    let (x, y, z) = (kind_text(a.2), kind_text(b.2), kind_text(c.2));
    lemma_text_before_total(x, y);
    lemma_text_before_total(y, z);
    lemma_text_before_total(x, z);
    if text_before(a.0, b.0) && text_before(b.0, c.0) {
        lemma_text_before_transitive(a.0, b.0, c.0);
    }
    if text_before(a.1, b.1) && text_before(b.1, c.1) {
        lemma_text_before_transitive(a.1, b.1, c.1);
    }
    if text_before(x, y) && text_before(y, z) {
        lemma_text_before_transitive(x, y, z);
    }
}

/// The indexes of the first `n` collections.
pub open spec fn specs_in(e: Seq<(Seq<char>, Vec<Index>)>, n: int) -> Seq<SpecModel>
    decreases n,
{
    if n <= 0 {
        Seq::empty()
    } else {
        specs_in(e, n - 1) + index_models(e[n - 1].1@).map_values(
            |m: IndexModel| (e[n - 1].0, shape_name(m.shape), m.kind),
        )
    }
}

fn goes_first(a: &IndexSpec, b: &IndexSpec) -> (r: bool)
    ensures
        r == spec_before(a@, b@),
{
    str_lt(a.collection.as_str(), b.collection.as_str()) || (str_eq(
        a.collection.as_str(),
        b.collection.as_str(),
    ) && (str_lt(a.field.as_str(), b.field.as_str()) || (str_eq(
        a.field.as_str(),
        b.field.as_str(),
    ) && str_lt(a.kind.as_str(), b.kind.as_str()))))
}

fn insert_spec(out: &mut Vec<IndexSpec>, spec: IndexSpec)
    requires
        specs_ordered(spec_models(old(out)@)),
    ensures
        specs_ordered(spec_models(final(out)@)),
        spec_models(final(out)@).to_multiset() == spec_models(old(out)@).to_multiset().insert(
            spec@,
        ),
{
    let ghost before = spec_models(out@);
    let ghost x = spec@;
    let mut at: usize = out.len();
    while at > 0 && goes_first(&spec, &out[at - 1])
        invariant
            at <= out@.len(),
            before == spec_models(out@),
            x == spec@,
            forall|k: int| at <= k < before.len() ==> spec_before(x, #[trigger] before[k]),
        decreases at,
    {
        assert(before[at - 1] == out@[at - 1]@);
        at -= 1;
    }
    proof {
        if at > 0 {
            assert(before[at - 1] == out@[at - 1]@);
        }
    }
    out.insert(at, spec);
    proof {
        let after = before.insert(at as int, x);
        assert(spec_models(out@) =~= after);
        assert forall|i: int, j: int|
            #![trigger after[i], after[j]]
            0 <= i < j < after.len() implies !spec_before(after[j], after[i]) by {
            if j == at {
                assert(after[i] == before[i]);
                if i < at - 1 {
                    lemma_spec_order(before[i], before[at - 1], x);
                }
            } else if i == at {
                assert(after[j] == before[j - 1]);
                lemma_spec_order(x, before[j - 1], x);
            } else {
                let p = if i < at { i } else { i - 1 };
                let q = if j < at { j } else { j - 1 };
                assert(after[i] == before[p] && after[j] == before[q]);
            }
        }
        vstd::seq_lib::to_multiset_insert(before, at as int, x);
    }
}

impl Derived {
    /// Every index there is, by collection, name and kind.
    pub fn index_specs(&self) -> (out: Vec<IndexSpec>)
        requires
            self.wf(),
        ensures
            specs_ordered(spec_models(out@)),
            spec_models(out@).to_multiset() == specs_in(
                self.indexes.entries(),
                self.indexes.entries().len() as int,
            ).to_multiset(),
    {
        let ghost e = self.indexes.entries();
        let mut out: Vec<IndexSpec> = Vec::new();
        let mut i: usize = 0;
        assert(spec_models(out@) =~= Seq::empty());
        while i < self.indexes.pairs.len()
            invariant
                i <= self.indexes.pairs@.len(),
                e == self.indexes.entries(),
                e.len() == self.indexes.pairs@.len(),
                specs_ordered(spec_models(out@)),
                spec_models(out@).to_multiset() == specs_in(e, i as int).to_multiset(),
            decreases self.indexes.pairs.len() - i,
        {
            let c = &self.indexes.pairs[i].0;
            let list = &self.indexes.pairs[i].1;
            let ghost before = specs_in(e, i as int);
            let ghost own = index_models(list@).map_values(
                |m: IndexModel| (c@, shape_name(m.shape), m.kind),
            );
            let mut k: usize = 0;
            assert(before + own.take(0) =~= before);
            while k < list.len()
                invariant
                    k <= list@.len(),
                    own == index_models(list@).map_values(
                        |m: IndexModel| (c@, shape_name(m.shape), m.kind),
                    ),
                    specs_ordered(spec_models(out@)),
                    spec_models(out@).to_multiset() == (before + own.take(k as int)).to_multiset(),
                decreases list.len() - k,
            {
                let spec = IndexSpec {
                    collection: c.clone(),
                    field: list[k].field(),
                    kind: list[k].kind(),
                };
                proof {
                    let now = before + own.take(k as int);
                    assert(before + own.take(k + 1) =~= now.push(own[k as int]));
                    assert(own[k as int] == spec@);
                    now.to_multiset_ensures();
                }
                insert_spec(&mut out, spec);
                k += 1;
            }
            proof {
                assert(own.take(k as int) =~= own);
                assert(e[i as int].0 == c@ && e[i as int].1 == *list);
                assert(specs_in(e, i + 1) =~= before + own);
            }
            i += 1;
        }
        out
    }
}

// -- which index answers --------------------------------------------------------

proof fn lemma_first_named(s: Seq<IndexModel>, name: Seq<char>)
    ensures
        match first_named(s, name) {
            Some(m) => exists|i: int|
                0 <= i < s.len() && #[trigger] s[i] == m && shape_name(m.shape) == name && (forall|
                    k: int,
                |
                    0 <= k < i ==> shape_name((#[trigger] s[k]).shape) != name),
            None => forall|k: int| 0 <= k < s.len() ==> shape_name((#[trigger] s[k]).shape) != name,
        },
    decreases s.len(),
{
    if s.len() > 0 {
        let rest = s.drop_first();
        lemma_first_named(rest, name);
        if shape_name(s[0].shape) == name {
            assert(s[0] == s[0]);
        } else {
            match first_named(rest, name) {
                Some(m) => {
                    let i = choose|i: int|
                        0 <= i < rest.len() && #[trigger] rest[i] == m && (forall|k: int|
                            0 <= k < i ==> shape_name((#[trigger] rest[k]).shape) != name);
                    assert(s[i + 1] == m);
                    assert forall|k: int| 0 <= k < i + 1 implies shape_name((#[trigger] s[k]).shape)
                        != name by {
                        if k > 0 {
                            assert(rest[k - 1] == s[k]);
                        }
                    }
                },
                None => {
                    assert forall|k: int| 0 <= k < s.len() implies shape_name(
                        (#[trigger] s[k]).shape,
                    ) != name by {
                        if k > 0 {
                            assert(rest[k - 1] == s[k]);
                        }
                    }
                },
            }
        }
    }
}

proof fn lemma_first_small_bitmap(s: Seq<IndexModel>, name: Seq<char>, few: nat)
    ensures
        ({
            let small = |m: IndexModel|
                shape_name(m.shape) == name && m.kind is Bitmap && keys_in(m.entries) <= few;
            match first_small_bitmap(s, name, few) {
                Some(m) => s.contains(m) && small(m),
                None => forall|k: int| 0 <= k < s.len() ==> !small(#[trigger] s[k]),
            }
        }),
    decreases s.len(),
{
    if s.len() > 0 {
        let rest = s.drop_first();
        lemma_first_small_bitmap(rest, name, few);
        assert(s[0] == s[0]);
        if let Some(m) = first_small_bitmap(rest, name, few) {
            let i = choose|i: int| 0 <= i < rest.len() && rest[i] == m;
            assert(s[i + 1] == m);
        }
        assert forall|k: int| 0 < k < s.len() implies #[trigger] s[k] == rest[k - 1] by {}
    }
}

/// The index that answers for a name is one of those that go by it, and there is one
/// wherever some index goes by it: a bitmap of few keys if there is such, and else the
/// first that was made.
pub proof fn an_index_that_answers_goes_by_the_name(s: Seq<IndexModel>, name: Seq<char>, few: nat)
    ensures
        answering(s, name, few) is Some <==> exists|i: int|
            0 <= i < s.len() && shape_name((#[trigger] s[i]).shape) == name,
        answering(s, name, few) matches Some(m) ==> {
            &&& s.contains(m)
            &&& shape_name(m.shape) == name
            &&& if exists|i: int|
                #![trigger s[i]]
                0 <= i < s.len() && shape_name(s[i].shape) == name && s[i].kind is Bitmap && keys_in(
                    s[i].entries,
                ) <= few {
                m.kind is Bitmap && keys_in(m.entries) <= few
            } else {
                exists|i: int|
                    0 <= i < s.len() && #[trigger] s[i] == m && (forall|k: int|
                        0 <= k < i ==> shape_name((#[trigger] s[k]).shape) != name)
            }
        },
{
    lemma_first_small_bitmap(s, name, few);
    lemma_first_named(s, name);
    if let Some(m) = first_small_bitmap(s, name, few) {
        let i = choose|i: int| 0 <= i < s.len() && s[i] == m;
        assert(shape_name(s[i].shape) == name);
    }
}

/// The index a range is answered by goes by the name and can be walked in order, and the
/// one that answers with what it carries is on the field, carries every field that is
/// needed, and can be walked in order where that is asked. There is one wherever some
/// index does so.
pub proof fn an_index_that_serves_can_do_what_is_asked(
    s: Seq<IndexModel>,
    name: Seq<char>,
    needed: Seq<Seq<char>>,
    ordered: bool,
)
    ensures
        ({
            let walks = |m: IndexModel| shape_name(m.shape) == name && m.kind is BTree;
            match first_ordered(s, name) {
                Some(m) => s.contains(m) && walks(m),
                None => forall|k: int| 0 <= k < s.len() ==> !walks(#[trigger] s[k]),
            }
        }),
        ({
            let carries = |m: IndexModel|
                (m.shape matches ShapeModel::Covering { field, covers } && field == name
                    && covers.len() > 0 && forall|i: int|
                    0 <= i < needed.len() ==> covers.contains(#[trigger] needed[i])) && (ordered
                    ==> m.kind is BTree);
            match first_serving(s, name, needed, ordered) {
                Some(m) => s.contains(m) && carries(m),
                None => forall|k: int| 0 <= k < s.len() ==> !carries(#[trigger] s[k]),
            }
        }),
    decreases s.len(),
{
    if s.len() > 0 {
        let rest = s.drop_first();
        an_index_that_serves_can_do_what_is_asked(rest, name, needed, ordered);
        assert(s[0] == s[0]);
        if let Some(m) = first_ordered(rest, name) {
            let i = choose|i: int| 0 <= i < rest.len() && rest[i] == m;
            assert(s[i + 1] == m);
        }
        if let Some(m) = first_serving(rest, name, needed, ordered) {
            let i = choose|i: int| 0 <= i < rest.len() && rest[i] == m;
            assert(s[i + 1] == m);
        }
        assert forall|k: int| 0 < k < s.len() implies #[trigger] s[k] == rest[k - 1] by {}
    }
}

/// Dropping an index leaves every index but those of its name and kind, in their order.
pub proof fn dropping_an_index_leaves_the_others(s: Seq<IndexModel>, name: Seq<char>, kind: IndexKind)
    ensures
        without_index(s, name, kind) == s.filter(
            |m: IndexModel| !(shape_name(m.shape) == name && m.kind == kind),
        ),
    decreases s.len(),
{
    reveal(Seq::filter);
    if s.len() > 0 {
        dropping_an_index_leaves_the_others(s.drop_last(), name, kind);
    }
}

/// Whether an index lists a record under some key.
pub open spec fn lists(m: IndexModel, id: u64) -> bool {
    exists|k: ValueModel| #[trigger] m.entries.contains((k, id))
}

/// A faithful covering index has a row to give for every record it lists: asked for ids
/// it lists, it gives one row for each, in their order.
pub proof fn a_covering_index_has_every_row_it_lists(
    m: IndexModel,
    keeps: Keeps,
    t: Records,
    ids: Seq<u64>,
)
    requires
        faithful(m, keeps, t),
        m.shape is Covering,
        forall|i: int| 0 <= i < ids.len() ==> lists(m, #[trigger] ids[i]),
    ensures
        carried_rows(m, ids).len() == ids.len(),
        forall|i: int| 0 <= i < ids.len() ==> (#[trigger] carried_rows(m, ids)[i]).0 == ids[i],
    decreases ids.len(),
{
    if ids.len() > 0 {
        let rest = ids.drop_last();
        assert forall|i: int| 0 <= i < rest.len() implies lists(m, #[trigger] rest[i]) by {
            assert(rest[i] == ids[i]);
        }
        a_covering_index_has_every_row_it_lists(m, keeps, t, rest);
        let id = ids[ids.len() - 1];
        assert(lists(m, ids[ids.len() - 1]));
        let k = choose|k: ValueModel| #[trigger] m.entries.contains((k, id));
        assert(key_under(m.shape, keeps, t, id) is Some);
        assert(find(m.carried, id) is Some);
        let before = carried_rows(m, rest);
        assert forall|i: int| 0 <= i < ids.len() implies (#[trigger] carried_rows(m, ids)[i]).0
            == ids[i] by {
            if i < rest.len() {
                assert(before[i].0 == rest[i]);
            }
        }
    }
}

/// Asking for an index on a collection there is comes to having one: over the fields it
/// was asked over in their order, carrying its field and every field it was to carry, of
/// the condition it was given. One that is already there is left as it is, and one that
/// is made is the last of its collection and says what the records say.
pub proof fn asking_for_an_index_comes_to_having_one<E: Fn(&Expr, &Record) -> bool>(
    a: Derived,
    b: Derived,
    r: Result<bool, Error>,
    c: Seq<char>,
    fields: Seq<Seq<char>>,
    field: Seq<char>,
    condition: ExprModel,
    kind: IndexKind,
    rows: RowsModel,
    eval: E,
    keeps: Keeps,
)
    requires
        evaluates(eval, keeps),
    ensures
        composite_outcome(a, b, r, c, true, fields, rows, eval) ==> {
            &&& r is Err <==> fields.len() < 2
            &&& r is Ok ==> exists_index(b.indexes_of(c), composite_text(fields), IndexKind::Hash)
            &&& r == Ok::<bool, Error>(true) ==> {
                let new = b.indexes_of(c).last();
                &&& b.indexes_of(c) == a.indexes_of(c).push(new)
                &&& new.shape matches ShapeModel::Composite { fields: f } && f == fields
                &&& new.kind is Hash
                &&& faithful(new, keeps, records_of(rows))
            }
            &&& r != Ok::<bool, Error>(true) ==> b.indexes_of(c) == a.indexes_of(c)
        },
        covering_outcome(a, b, r, c, true, field, fields, kind, rows, eval) ==> {
            &&& r is Err <==> fields.len() == 0
            &&& r == Ok::<bool, Error>(true) ==> {
                let new = b.indexes_of(c).last();
                &&& b.indexes_of(c) == a.indexes_of(c).push(new)
                &&& new.shape matches ShapeModel::Covering { field: f, covers } && f == field
                    && forall|x: Seq<char>| #[trigger]
                    covers.contains(x) <==> x == field || fields.contains(x)
                &&& new.kind == kind
                &&& faithful(new, keeps, records_of(rows))
            }
            &&& r != Ok::<bool, Error>(true) ==> b.indexes_of(c) == a.indexes_of(c)
        },
        partial_outcome(a, b, r, c, true, field, condition, kind, rows, eval) ==> {
            &&& r == Ok::<bool, Error>(true) ==> {
                let new = b.indexes_of(c).last();
                &&& b.indexes_of(c) == a.indexes_of(c).push(new)
                &&& new.shape matches ShapeModel::Partial { field: f, condition: e, .. } && f == field
                    && e == condition
                &&& new.kind == kind
                &&& faithful(new, keeps, records_of(rows))
            }
            &&& r != Ok::<bool, Error>(true) ==> b.indexes_of(c) == a.indexes_of(c)
        },
{
    lemma_sorted_set(fields.push(field));
    assert forall|x: Seq<char>| fields.push(field).contains(x) <==> x == field || fields.contains(
        x,
    ) by {
        assert(fields.push(field)[fields.len() as int] == field);
        if fields.contains(x) {
            let i = choose|i: int| 0 <= i < fields.len() && fields[i] == x;
            assert(fields.push(field)[i] == x);
        }
    }
    if composite_outcome(a, b, r, c, true, fields, rows, eval) && r == Ok::<bool, Error>(true) {
        let s = b.indexes_of(c);
        assert(is_index(s[s.len() - 1], composite_text(fields), IndexKind::Hash));
    }
}

/// Every index is listed, under its collection, by its name and with its kind; and nothing
/// is that there is not.
pub proof fn every_index_is_listed(
    e: Seq<(Seq<char>, Vec<Index>)>,
    n: int,
    c: Seq<char>,
    name: Seq<char>,
    kind: IndexKind,
)
    requires
        0 <= n <= e.len(),
    ensures
        specs_in(e, n).contains((c, name, kind)) <==> exists|i: int, j: int|
            0 <= i < n && 0 <= j < index_models(e[i].1@).len() && e[i].0 == c && shape_name(
                (#[trigger] index_models(e[i].1@)[j]).shape,
            ) == name && index_models(e[i].1@)[j].kind == kind,
    decreases n,
{
    if n > 0 {
        every_index_is_listed(e, n - 1, c, name, kind);
        let x = (c, name, kind);
        let before = specs_in(e, n - 1);
        let list = index_models(e[n - 1].1@);
        let own = list.map_values(|m: IndexModel| (e[n - 1].0, shape_name(m.shape), m.kind));
        let all = specs_in(e, n);
        if before.contains(x) {
            let k = choose|k: int| 0 <= k < before.len() && before[k] == x;
            assert(all[k] == x);
        }
        if all.contains(x) {
            let k = choose|k: int| 0 <= k < all.len() && all[k] == x;
            if k < before.len() {
                assert(before[k] == x);
            } else {
                assert(own[k - before.len()] == x);
                let m = list[k - before.len()];
                assert(shape_name(m.shape) == name && m.kind == kind && e[n - 1].0 == c);
            }
        }
        if exists|i: int, j: int|
            0 <= i < n && 0 <= j < index_models(e[i].1@).len() && e[i].0 == c && shape_name(
                (#[trigger] index_models(e[i].1@)[j]).shape,
            ) == name && index_models(e[i].1@)[j].kind == kind {
            let (i, j) = choose|i: int, j: int|
                0 <= i < n && 0 <= j < index_models(e[i].1@).len() && e[i].0 == c && shape_name(
                    (#[trigger] index_models(e[i].1@)[j]).shape,
                ) == name && index_models(e[i].1@)[j].kind == kind;
            if i == n - 1 {
                assert(own[j] == x);
                assert(all[before.len() + j] == x);
            }
        }
    }
}

} // verus!
