//! What a planner may know.
//!
//! An index a planner can find is one it will use. So what an experiment built is
//! left out of everything a planner is told, but for the queries the experiment
//! serves with it.

use vstd::prelude::*;
use crate::action::IndexKind;
use crate::assoc::lemma_find_some;
use crate::column::ColumnStore;
use crate::derived::{index_models, Derived};
use crate::experiment::{index_hidden, list_hidden, Candidates, Mask};
use crate::expr::{Expr, ExprModel};
use crate::index::{keys_in, shape_name, Index, IndexModel, Shape, ShapeModel};
use crate::strmap::{lemma_named_at, lemma_names_distinct, StrMap};
use crate::text::{dup_strings, texts};
use crate::trials::{revealed, Trials};

verus! {

/// An index that carries fields: its name, what it carries, its kind.
pub struct CoveringEntry {
    pub name: String,
    pub covers: Vec<String>,
    pub kind: IndexKind,
}

/// An index over part of a collection: its name, which part, its kind.
pub struct PartialEntry {
    pub name: String,
    pub condition: Expr,
    pub kind: IndexKind,
}

/// What a planner may know of the indexes of a collection.
pub struct IndexContext {
    pub indexes: Vec<(String, IndexKind)>,
    /// How many distinct keys each has.
    pub cardinality: StrMap<u64>,
    /// The fields of each index over several.
    pub composite: Vec<Vec<String>>,
    pub covering: Vec<CoveringEntry>,
    pub partial: Vec<PartialEntry>,
}

/// What a planner may know.
pub struct PlanContext {
    pub collections: StrMap<IndexContext>,
    /// The fields each columnar copy can give back.
    pub columnar: StrMap<Vec<String>>,
    pub row_counts: StrMap<u64>,
}

/// Whether an index may not be known of.
pub open spec fn unseen(x: IndexModel, m: Mask, r: Option<u64>, c: Seq<char>) -> bool {
    index_hidden(m, r, c, shape_name(x.shape), x.kind)
}

/// The indexes that may be known of.
pub open spec fn seen(s: Seq<IndexModel>, m: Mask, r: Option<u64>, c: Seq<char>) -> Seq<IndexModel>
    decreases s.len(),
{
    if s.len() == 0 {
        Seq::empty()
    } else if unseen(s.last(), m, r, c) {
        seen(s.drop_last(), m, r, c)
    } else {
        seen(s.drop_last(), m, r, c).push(s.last())
    }
}

pub open spec fn names_and_kinds(s: Seq<IndexModel>) -> Seq<(Seq<char>, IndexKind)> {
    s.map_values(|x: IndexModel| (shape_name(x.shape), x.kind))
}

/// How many distinct keys the newest index of a name has.
pub open spec fn cardinality_of(s: Seq<IndexModel>, name: Seq<char>) -> Option<u64>
    decreases s.len(),
{
    if s.len() == 0 {
        None
    } else if shape_name(s.last().shape) == name {
        Some(keys_in(s.last().entries) as u64)
    } else {
        cardinality_of(s.drop_last(), name)
    }
}

/// The fields of each index over several.
pub open spec fn composites(s: Seq<IndexModel>) -> Seq<Seq<Seq<char>>>
    decreases s.len(),
{
    if s.len() == 0 {
        Seq::empty()
    } else {
        match s.last().shape {
            ShapeModel::Composite { fields } => composites(s.drop_last()).push(fields),
            _ => composites(s.drop_last()),
        }
    }
}

/// The indexes that carry fields.
pub open spec fn coverings(s: Seq<IndexModel>) -> Seq<(Seq<char>, Seq<Seq<char>>, IndexKind)>
    decreases s.len(),
{
    if s.len() == 0 {
        Seq::empty()
    } else {
        match s.last().shape {
            ShapeModel::Covering { covers, .. } => coverings(s.drop_last()).push(
                (shape_name(s.last().shape), covers, s.last().kind),
            ),
            _ => coverings(s.drop_last()),
        }
    }
}

/// The indexes over part of a collection.
pub open spec fn partials(s: Seq<IndexModel>) -> Seq<(Seq<char>, ExprModel, IndexKind)>
    decreases s.len(),
{
    if s.len() == 0 {
        Seq::empty()
    } else {
        match s.last().shape {
            ShapeModel::Partial { condition, .. } => partials(s.drop_last()).push(
                (shape_name(s.last().shape), condition, s.last().kind),
            ),
            _ => partials(s.drop_last()),
        }
    }
}

impl IndexContext {
    /// Whether this says of indexes what there is to know, and no more.
    pub open spec fn tells_of(&self, s: Seq<IndexModel>) -> bool {
        &&& self.indexes@.map_values(|p: (String, IndexKind)| (p.0@, p.1)) == names_and_kinds(s)
        &&& self.cardinality.wf()
        &&& forall|name: Seq<char>| #[trigger]
            self.cardinality.of(name) == cardinality_of(s, name)
        &&& self.composite@.map_values(|f: Vec<String>| texts(f@)) == composites(s)
        &&& self.covering@.map_values(|e: CoveringEntry| (e.name@, texts(e.covers@), e.kind))
            == coverings(s)
        &&& self.partial@.map_values(|e: PartialEntry| (e.name@, e.condition.model(), e.kind))
            == partials(s)
    }
}

fn index_context(list: &Vec<Index>, hidden: &Candidates, shown: Option<u64>, collection: &str) -> (x:
    IndexContext)
    ensures
        x.tells_of(seen(index_models(list@), hidden@, shown, collection@)),
{
    let ghost all = index_models(list@);
    let ghost m = hidden@;
    let mut x = IndexContext {
        indexes: Vec::new(),
        cardinality: StrMap::new(),
        composite: Vec::new(),
        covering: Vec::new(),
        partial: Vec::new(),
    };
    proof {
        let none = seen(all.take(0), m, shown, collection@);
        assert(x.indexes@.map_values(|p: (String, IndexKind)| (p.0@, p.1)) =~= names_and_kinds(
            none,
        ));
        assert(x.composite@.map_values(|f: Vec<String>| texts(f@)) =~= composites(none));
        assert(x.covering@.map_values(|e: CoveringEntry| (e.name@, texts(e.covers@), e.kind))
            =~= coverings(none));
        assert(x.partial@.map_values(|e: PartialEntry| (e.name@, e.condition.model(), e.kind))
            =~= partials(none));
    }
    let mut i: usize = 0;
    while i < list.len()
        invariant
            i <= list@.len(),
            all == index_models(list@),
            m == hidden@,
            x.tells_of(seen(all.take(i as int), m, shown, collection@)),
        decreases list@.len() - i,
    {
        let ghost before = seen(all.take(i as int), m, shown, collection@);
        let ghost was = x;
        assert(all.take(i + 1).drop_last() =~= all.take(i as int));
        assert(all.take(i + 1).last() == list@[i as int]@);
        let name = list[i].field();
        let kind = list[i].kind();
        if !hidden.hides_index(shown, collection, name.as_str(), kind) {
            let ghost now = before.push(all[i as int]);
            assert(now == seen(all.take(i + 1), m, shown, collection@));
            assert(now.drop_last() =~= before);
            assert(now.last() == all[i as int]);
            x.cardinality.put(name.as_str(), list[i].key_count() as u64);
            match list[i].shape() {
                Shape::Composite { fields } => {
                    x.composite.push(dup_strings(fields));
                    assert(x.composite@.map_values(|f: Vec<String>| texts(f@)) =~= composites(now));
                },
                Shape::Covering { covers, .. } => {
                    x.covering.push(
                        CoveringEntry { name: name.clone(), covers: dup_strings(covers), kind },
                    );
                    assert(x.covering@.map_values(
                        |e: CoveringEntry| (e.name@, texts(e.covers@), e.kind),
                    ) =~= coverings(now));
                },
                Shape::Partial { condition, .. } => {
                    x.partial.push(
                        PartialEntry { name: name.clone(), condition: condition.dup(), kind },
                    );
                    assert(x.partial@.map_values(
                        |e: PartialEntry| (e.name@, e.condition.model(), e.kind),
                    ) =~= partials(now));
                },
                Shape::Ordinary { .. } => {},
            }
            x.indexes.push((name, kind));
            assert(x.indexes@ == was.indexes@.push((name, kind)));
            assert(names_and_kinds(now) =~= names_and_kinds(before).push((name@, kind)));
            assert(x.indexes@.map_values(|p: (String, IndexKind)| (p.0@, p.1))
                =~= was.indexes@.map_values(|p: (String, IndexKind)| (p.0@, p.1)).push(
                (name@, kind),
            ));
            assert(x.indexes@.map_values(|p: (String, IndexKind)| (p.0@, p.1)) =~= names_and_kinds(
                now,
            ));
            assert forall|n: Seq<char>| #[trigger] x.cardinality.of(n) == cardinality_of(now, n) by {
                if n != name@ {
                    assert(x.cardinality.of(n) == was.cardinality.of(n));
                }
            }
        }
        i += 1;
    }
    assert(all.take(i as int) =~= all);
    x
}

/// What may be known of the columnar copy of a collection: the fields it can give
/// back.
pub open spec fn columns_seen(d: Derived, m: Mask, r: Option<u64>, c: Seq<char>) -> Option<
    Seq<Seq<char>>,
> {
    match d.columns.of(c) {
        Some(s) => if list_hidden(m.column_store, r, c) {
            None
        } else {
            Some(s.names())
        },
        None => None,
    }
}

pub open spec fn optional_texts(v: Option<Vec<String>>) -> Option<Seq<Seq<char>>> {
    match v {
        Some(v) => Some(texts(v@)),
        None => None,
    }
}

impl PlanContext {
    /// Whether this says what there is to know, of every collection.
    pub open spec fn tells(&self, d: Derived, m: Mask, r: Option<u64>, live: StrMap<u64>) -> bool {
        &&& self.collections.wf()
        &&& self.columnar.wf()
        &&& self.row_counts.wf()
        &&& forall|c: Seq<char>|
            match #[trigger] self.collections.of(c) {
                Some(x) => d.indexes.of(c) is Some && x.tells_of(seen(d.indexes_of(c), m, r, c)),
                None => d.indexes.of(c) is None,
            }
        &&& forall|c: Seq<char>|
            optional_texts(#[trigger] self.columnar.of(c)) == columns_seen(d, m, r, c)
        &&& forall|c: Seq<char>| #[trigger]
            self.row_counts.of(c) == if d.indexes.of(c) is Some || columns_seen(d, m, r, c) is Some {
                live.of(c)
            } else {
                None
            }
    }
}

fn owned_fields(store: &ColumnStore) -> (out: Vec<String>)
    requires
        store.wf(),
    ensures
        texts(out@) == store.names(),
{
    let fields = store.fields();
    let ghost all = fields@.map_values(|s: &str| s@);
    let mut out: Vec<String> = Vec::new();
    let mut i: usize = 0;
    while i < fields.len()
        invariant
            i <= fields@.len(),
            out@.len() == i,
            forall|k: int| 0 <= k < i ==> (#[trigger] out@[k])@ == fields@[k]@,
        decreases fields@.len() - i,
    {
        out.push(fields[i].to_owned());
        i += 1;
    }
    assert(texts(out@) =~= all);
    out
}

fn note_rows(counts: &mut StrMap<u64>, live: &StrMap<u64>, collection: &str)
    requires
        old(counts).wf(),
        live.wf(),
        old(counts).of(collection@) is Some ==> old(counts).of(collection@) == live.of(collection@),
    ensures
        final(counts).wf(),
        final(counts).of(collection@) == live.of(collection@),
        forall|c: Seq<char>|
            c != collection@ ==> #[trigger] final(counts).of(c) == old(counts).of(c),
{
    if let Some(n) = live.get(collection) {
        counts.put(collection, *n);
    }
}

/// Whether a name is among the first of a list of named values.
pub open spec fn named_before<V>(m: StrMap<V>, n: int, c: Seq<char>) -> bool {
    exists|k: int| 0 <= k < n && (#[trigger] m.pairs@[k]).0@ == c
}

proof fn lemma_named<V>(m: StrMap<V>, c: Seq<char>)
    requires
        m.wf(),
    ensures
        named_before(m, m.pairs@.len() as int, c) <==> m.of(c) is Some,
        forall|k: int|
            0 <= k < m.pairs@.len() ==> m.of((#[trigger] m.pairs@[k]).0@) == Some(m.pairs@[k].1),
{
    let e = m.entries();
    lemma_names_distinct(e);
    assert forall|k: int| 0 <= k < m.pairs@.len() implies m.of((#[trigger] m.pairs@[k]).0@) == Some(
        m.pairs@[k].1,
    ) by {
        lemma_named_at(e, k);
        assert(e[k] == (m.pairs@[k].0@, m.pairs@[k].1));
    }
    if m.of(c) is Some {
        let k = lemma_find_some(e, c);
        assert(m.pairs@[k].0@ == c);
    }
}

impl Derived {
    /// What a planner may know of what there is, with the live count of each
    /// collection that has one.
    pub fn plan_context(&self, trials: &Trials, live: &StrMap<u64>) -> (x: PlanContext)
        requires
            self.wf(),
            live.wf(),
        ensures
            x.tells(*self, trials@.hidden, revealed(trials@), *live),
    {
        let shown = trials.revealed();
        let hidden = &trials.hidden;
        let ghost m = hidden@;
        let mut x = PlanContext {
            collections: StrMap::new(),
            columnar: StrMap::new(),
            row_counts: StrMap::new(),
        };
        let mut i: usize = 0;
        while i < self.indexes.pairs.len()
            invariant
                i <= self.indexes.pairs@.len(),
                self.wf(),
                live.wf(),
                m == hidden@,
                x.collections.wf(),
                x.columnar.wf(),
                x.row_counts.wf(),
                forall|c: Seq<char>| #[trigger] x.columnar.of(c) is None,
                forall|c: Seq<char>|
                    match #[trigger] x.collections.of(c) {
                        Some(y) => named_before(self.indexes, i as int, c) && y.tells_of(
                            seen(self.indexes_of(c), m, shown, c),
                        ),
                        None => !named_before(self.indexes, i as int, c),
                    },
                forall|c: Seq<char>| #[trigger]
                    x.row_counts.of(c) == if named_before(self.indexes, i as int, c) {
                        live.of(c)
                    } else {
                        None
                    },
            decreases self.indexes.pairs@.len() - i,
        {
            let ghost was = x;
            let ghost c = self.indexes.pairs@[i as int].0@;
            let name = self.indexes.pairs[i].0.as_str();
            let list = &self.indexes.pairs[i].1;
            proof {
                lemma_named(self.indexes, c);
            }
            assert(self.indexes_of(c) == index_models(list@));
            let y = index_context(list, hidden, shown, name);
            x.collections.put(name, y);
            note_rows(&mut x.row_counts, live, name);
            proof {
                assert forall|d: Seq<char>| named_before(self.indexes, i + 1, d)
                    == (named_before(self.indexes, i as int, d) || d == c) by {
                    if named_before(self.indexes, i as int, d) {
                        let k = choose|k: int|
                            0 <= k < i && (#[trigger] self.indexes.pairs@[k]).0@ == d;
                        assert(self.indexes.pairs@[k].0@ == d);
                    }
                    if d == c {
                        assert(self.indexes.pairs@[i as int].0@ == d);
                    }
                }
                assert forall|d: Seq<char>| match #[trigger] x.collections.of(d) {
                    Some(y) => named_before(self.indexes, i + 1, d) && y.tells_of(
                        seen(self.indexes_of(d), m, shown, d),
                    ),
                    None => !named_before(self.indexes, i + 1, d),
                } by {
                    if d != c {
                        assert(x.collections.of(d) == was.collections.of(d));
                    }
                }
            }
            i += 1;
        }
        proof {
            assert forall|c: Seq<char>| named_before(
                self.indexes,
                self.indexes.pairs@.len() as int,
                c,
            ) == (self.indexes.of(c) is Some) by {
                lemma_named(self.indexes, c);
            }
        }
        let mut j: usize = 0;
        while j < self.columns.pairs.len()
            invariant
                j <= self.columns.pairs@.len(),
                self.wf(),
                live.wf(),
                m == hidden@,
                x.collections.wf(),
                x.columnar.wf(),
                x.row_counts.wf(),
                forall|c: Seq<char>|
                    match #[trigger] x.collections.of(c) {
                        Some(y) => self.indexes.of(c) is Some && y.tells_of(
                            seen(self.indexes_of(c), m, shown, c),
                        ),
                        None => self.indexes.of(c) is None,
                    },
                forall|c: Seq<char>|
                    optional_texts(#[trigger] x.columnar.of(c)) == if named_before(
                        self.columns,
                        j as int,
                        c,
                    ) {
                        columns_seen(*self, m, shown, c)
                    } else {
                        None
                    },
                forall|c: Seq<char>| #[trigger]
                    x.row_counts.of(c) == if self.indexes.of(c) is Some || (named_before(
                        self.columns,
                        j as int,
                        c,
                    ) && columns_seen(*self, m, shown, c) is Some) {
                        live.of(c)
                    } else {
                        None
                    },
            decreases self.columns.pairs@.len() - j,
        {
            let ghost was = x;
            let ghost c = self.columns.pairs@[j as int].0@;
            let name = self.columns.pairs[j].0.as_str();
            proof {
                lemma_named(self.columns, c);
                assert forall|d: Seq<char>| named_before(self.columns, j + 1, d) == (named_before(
                    self.columns,
                    j as int,
                    d,
                ) || d == c) by {
                    if named_before(self.columns, j as int, d) {
                        let k = choose|k: int|
                            0 <= k < j && (#[trigger] self.columns.pairs@[k]).0@ == d;
                        assert(self.columns.pairs@[k].0@ == d);
                    }
                    if d == c {
                        assert(self.columns.pairs@[j as int].0@ == d);
                    }
                }
            }
            if !hidden.hides_column_store(shown, name) {
                let fields = owned_fields(&self.columns.pairs[j].1);
                assert(columns_seen(*self, m, shown, c) == Some(texts(fields@)));
                x.columnar.put(name, fields);
                note_rows(&mut x.row_counts, live, name);
            } else {
                assert(columns_seen(*self, m, shown, c) is None);
            }
            proof {
                assert forall|d: Seq<char>| optional_texts(#[trigger] x.columnar.of(d))
                    == if named_before(self.columns, j + 1, d) {
                    columns_seen(*self, m, shown, d)
                } else {
                    None
                } by {
                    if d != c {
                        assert(x.columnar.of(d) == was.columnar.of(d));
                    } else {
                        assert(optional_texts(was.columnar.of(d)) == if named_before(
                            self.columns,
                            j as int,
                            d,
                        ) {
                            columns_seen(*self, m, shown, d)
                        } else {
                            None
                        });
                    }
                }
                assert forall|d: Seq<char>| #[trigger]
                    x.row_counts.of(d) == if self.indexes.of(d) is Some || (named_before(
                        self.columns,
                        j + 1,
                        d,
                    ) && columns_seen(*self, m, shown, d) is Some) {
                        live.of(d)
                    } else {
                        None
                    } by {
                    if d != c {
                        assert(x.row_counts.of(d) == was.row_counts.of(d));
                    }
                }
            }
            j += 1;
        }
        proof {
            assert forall|c: Seq<char>| optional_texts(#[trigger] x.columnar.of(c)) == columns_seen(
                *self,
                m,
                shown,
                c,
            ) by {
                lemma_named(self.columns, c);
            }
            assert forall|c: Seq<char>| #[trigger] x.row_counts.of(c) == if self.indexes.of(c) is Some
                || columns_seen(*self, m, shown, c) is Some {
                live.of(c)
            } else {
                None
            } by {
                lemma_named(self.columns, c);
            }
        }
        x
    }
}

/// A hidden index leaves no trace: what may be known of a collection's indexes is
/// what could be known if the hidden one were not there.
pub proof fn a_hidden_index_leaves_no_trace(
    s: Seq<IndexModel>,
    m: Mask,
    r: Option<u64>,
    c: Seq<char>,
    i: int,
)
    requires
        0 <= i < s.len(),
        unseen(s[i], m, r, c),
    ensures
        seen(s, m, r, c) == seen(s.remove(i), m, r, c),
    decreases s.len(),
{
    if i == s.len() - 1 {
        assert(s.remove(i) =~= s.drop_last());
    } else {
        let t = s.remove(i);
        assert(t.last() == s.last());
        assert(t.drop_last() =~= s.drop_last().remove(i));
        assert(s.drop_last()[i] == s[i]);
        a_hidden_index_leaves_no_trace(s.drop_last(), m, r, c, i);
    }
}

/// While nothing is hidden everything may be known.
pub proof fn nothing_hidden_is_everything_seen(
    s: Seq<IndexModel>,
    m: Mask,
    r: Option<u64>,
    c: Seq<char>,
)
    requires
        m.indexes.len() == 0,
    ensures
        seen(s, m, r, c) == s,
    decreases s.len(),
{
    if s.len() > 0 {
        nothing_hidden_is_everything_seen(s.drop_last(), m, r, c);
        assert(s.drop_last().push(s.last()) =~= s);
    }
}

/// What may be known of a collection's indexes is every one that is not hidden, in its
/// order, and of each shape those that are of it: the fields of one over several, the
/// fields one carries, the condition of one over part of a collection.
pub proof fn a_planner_knows_every_index_that_is_not_hidden(
    s: Seq<IndexModel>,
    m: Mask,
    r: Option<u64>,
    c: Seq<char>,
)
    ensures
        seen(s, m, r, c) == s.filter(
            |x: IndexModel| !index_hidden(m, r, c, shape_name(x.shape), x.kind),
        ),
        composites(s) == s.filter(|x: IndexModel| x.shape is Composite).map_values(
            |x: IndexModel| x.shape->fields,
        ),
        coverings(s) == s.filter(|x: IndexModel| x.shape is Covering).map_values(
            |x: IndexModel| (shape_name(x.shape), x.shape->covers, x.kind),
        ),
        partials(s) == s.filter(|x: IndexModel| x.shape is Partial).map_values(
            |x: IndexModel| (shape_name(x.shape), x.shape->condition, x.kind),
        ),
    decreases s.len(),
{
    reveal(Seq::filter);
    let composite = |x: IndexModel| x.shape is Composite;
    let covering = |x: IndexModel| x.shape is Covering;
    let partial = |x: IndexModel| x.shape is Partial;
    let f = |x: IndexModel| x.shape->fields;
    let g = |x: IndexModel| (shape_name(x.shape), x.shape->covers, x.kind);
    let h = |x: IndexModel| (shape_name(x.shape), x.shape->condition, x.kind);
    if s.len() > 0 {
        let rest = s.drop_last();
        let x = s.last();
        a_planner_knows_every_index_that_is_not_hidden(rest, m, r, c);
        let (a, b, d) = (rest.filter(composite), rest.filter(covering), rest.filter(partial));
        assert(a.push(x).map_values(f) =~= a.map_values(f).push(f(x)));
        assert(b.push(x).map_values(g) =~= b.map_values(g).push(g(x)));
        assert(d.push(x).map_values(h) =~= d.map_values(h).push(h(x)));
    } else {
        assert(s.filter(composite).map_values(f) =~= Seq::empty());
        assert(s.filter(covering).map_values(g) =~= Seq::empty());
        assert(s.filter(partial).map_values(h) =~= Seq::empty());
    }
}

/// How many keys a name has is how many the newest index of that name has; nothing is
/// said of a name no index goes by.
pub proof fn the_newest_index_tells_how_many_keys(s: Seq<IndexModel>, name: Seq<char>)
    ensures
        match cardinality_of(s, name) {
            None => forall|i: int| 0 <= i < s.len() ==> shape_name((#[trigger] s[i]).shape) != name,
            Some(n) => exists|i: int|
                0 <= i < s.len() && shape_name((#[trigger] s[i]).shape) == name && n == keys_in(
                    s[i].entries,
                ) as u64 && (forall|k: int|
                    i < k < s.len() ==> shape_name((#[trigger] s[k]).shape) != name),
        },
    decreases s.len(),
{
    if s.len() > 0 {
        let rest = s.drop_last();
        the_newest_index_tells_how_many_keys(rest, name);
        let last = s.len() - 1;
        if shape_name(s.last().shape) == name {
            assert(shape_name(s[last].shape) == name);
        } else {
            match cardinality_of(rest, name) {
                None => {
                    assert forall|i: int| 0 <= i < s.len() implies shape_name((#[trigger] s[i]).shape)
                        != name by {
                        if i < last {
                            assert(rest[i] == s[i]);
                        }
                    }
                },
                Some(n) => {
                    let i = choose|i: int|
                        0 <= i < rest.len() && shape_name((#[trigger] rest[i]).shape) == name && n
                            == keys_in(rest[i].entries) as u64 && (forall|k: int|
                            i < k < rest.len() ==> shape_name((#[trigger] rest[k]).shape) != name);
                    assert(s[i] == rest[i]);
                    assert forall|k: int| i < k < s.len() implies shape_name(
                        (#[trigger] s[k]).shape,
                    ) != name by {
                        if k < last {
                            assert(rest[k] == s[k]);
                        }
                    }
                },
            }
        }
    }
}

/// A planner knows a columnar copy, with every field it has, unless an experiment other than
/// the query's own has it hidden.
pub proof fn a_planner_knows_every_copy_that_is_not_hidden(
    d: Derived,
    m: Mask,
    r: Option<u64>,
    c: Seq<char>,
    names: Seq<Seq<char>>,
)
    ensures
        columns_seen(d, m, r, c) == Some(names) <==> (d.columns.of(c) matches Some(s) && s.names()
            == names) && forall|i: int|
            0 <= i < m.column_store.len() && (#[trigger] m.column_store[i]).1 == c ==> r == Some(
                m.column_store[i].0,
            ),
{
    if list_hidden(m.column_store, r, c) {
        let i = choose|i: int|
            0 <= i < m.column_store.len() && Some((#[trigger] m.column_store[i]).0) != r
                && m.column_store[i].1 == c;
        assert(m.column_store[i].1 == c);
    }
}

} // verus!
