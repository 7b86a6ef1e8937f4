//! Driving an experiment against live traffic.
//!
//! A candidate structure is built where the planner cannot see it. Each entry of
//! the mask carries the experiment that built it, so that one experiment's
//! candidate is revealed to its own queries alone and retiring one experiment
//! leaves every other mask in place.

use vstd::prelude::*;
use vstd::string::*;
use crate::action::{kind_text, Action, ActionModel, Decision, DecisionModel, IndexKind, Phase};
use crate::caches::{tick, ticked};
use crate::shadow::{no_trials, says, ShadowReport};
use crate::text::{dec_text, join, joined, push_dec, str_eq, texts};

verus! {

/// Structures experiments have built but not yet proven, hidden from the planner
/// until they are.
pub struct Candidates {
    indexes: Vec<(u64, String, String, IndexKind)>,
    column_store: Vec<(u64, String)>,
    direct: Vec<(u64, String)>,
}

/// A hidden index: whose it is, and which.
pub type HiddenIndex = (u64, Seq<char>, Seq<char>, IndexKind);

/// What [`Candidates`] hold.
pub struct Mask {
    pub indexes: Seq<HiddenIndex>,
    pub column_store: Seq<(u64, Seq<char>)>,
    pub direct: Seq<(u64, Seq<char>)>,
}

/// Whether a collection is in a list of per-collection structures.
pub open spec fn listed(s: Seq<(u64, Seq<char>)>, collection: Seq<char>) -> bool {
    exists|i: int| 0 <= i < s.len() && (#[trigger] s[i]).1 == collection
}

/// A list with `id`'s structure for a collection, unless the collection has one.
pub open spec fn list_with(
    s: Seq<(u64, Seq<char>)>,
    id: u64,
    collection: Seq<char>,
) -> Seq<(u64, Seq<char>)> {
    if collection.len() == 0 || listed(s, collection) {
        s
    } else {
        s.push((id, collection))
    }
}

/// The mask after experiment `id`, which is about `for_collection`, carried out
/// an action. Only what exists beside the current representation is masked, and
/// an engine-wide structure is masked for the experiment's own collection.
pub open spec fn mask_with(
    m: Mask,
    id: u64,
    action: ActionModel,
    for_collection: Seq<char>,
) -> Mask {
    match action {
        ActionModel::CreateIndex { collection, field, kind } => Mask {
            indexes: m.indexes.push((id, collection, field, kind)),
            ..m
        },
        ActionModel::SetColumnStore(true) => Mask {
            column_store: list_with(m.column_store, id, for_collection),
            ..m
        },
        ActionModel::SetDirectLookup(true) => Mask {
            direct: list_with(m.direct, id, for_collection),
            ..m
        },
        _ => m,
    }
}

/// The hidden indexes of other experiments than `id`.
pub open spec fn other_indexes(s: Seq<HiddenIndex>, id: u64) -> Seq<HiddenIndex>
    decreases s.len(),
{
    if s.len() == 0 {
        Seq::empty()
    } else if s.last().0 == id {
        other_indexes(s.drop_last(), id)
    } else {
        other_indexes(s.drop_last(), id).push(s.last())
    }
}

/// The listed structures of other experiments than `id`.
pub open spec fn other_listed(s: Seq<(u64, Seq<char>)>, id: u64) -> Seq<(u64, Seq<char>)>
    decreases s.len(),
{
    if s.len() == 0 {
        Seq::empty()
    } else if s.last().0 == id {
        other_listed(s.drop_last(), id)
    } else {
        other_listed(s.drop_last(), id).push(s.last())
    }
}

/// The mask once experiment `id` is forgotten.
pub open spec fn mask_without(m: Mask, id: u64) -> Mask {
    Mask {
        indexes: other_indexes(m.indexes, id),
        column_store: other_listed(m.column_store, id),
        direct: other_listed(m.direct, id),
    }
}

/// A mask that hides nothing.
pub open spec fn no_mask() -> Mask {
    Mask { indexes: Seq::empty(), column_store: Seq::empty(), direct: Seq::empty() }
}

/// The hidden indexes of experiment `id`.
pub open spec fn own_indexes(s: Seq<HiddenIndex>, id: u64) -> Seq<HiddenIndex>
    decreases s.len(),
{
    if s.len() == 0 {
        Seq::empty()
    } else if s.last().0 == id {
        own_indexes(s.drop_last(), id).push(s.last())
    } else {
        own_indexes(s.drop_last(), id)
    }
}

/// The listed structures of experiment `id`.
pub open spec fn own_listed(s: Seq<(u64, Seq<char>)>, id: u64) -> Seq<(u64, Seq<char>)>
    decreases s.len(),
{
    if s.len() == 0 {
        Seq::empty()
    } else if s.last().0 == id {
        own_listed(s.drop_last(), id).push(s.last())
    } else {
        own_listed(s.drop_last(), id)
    }
}

/// What experiment `id` contributed to a mask.
pub open spec fn mask_of(m: Mask, id: u64) -> Mask {
    Mask {
        indexes: own_indexes(m.indexes, id),
        column_store: own_listed(m.column_store, id),
        direct: own_listed(m.direct, id),
    }
}

/// Whether an index is hidden from a query that may see the candidate of
/// `revealed` only.
pub open spec fn index_hidden(
    m: Mask,
    revealed: Option<u64>,
    collection: Seq<char>,
    field: Seq<char>,
    kind: IndexKind,
) -> bool {
    exists|i: int|
        0 <= i < m.indexes.len() && Some((#[trigger] m.indexes[i]).0) != revealed
            && m.indexes[i].1 == collection && m.indexes[i].2 == field && m.indexes[i].3 == kind
}

/// Whether a listed structure is hidden.
pub open spec fn list_hidden(
    s: Seq<(u64, Seq<char>)>,
    revealed: Option<u64>,
    collection: Seq<char>,
) -> bool {
    exists|i: int|
        0 <= i < s.len() && Some((#[trigger] s[i]).0) != revealed && s[i].1 == collection
}

/// Whether nothing in a mask is experiment `id`'s.
pub open spec fn mask_empty_for(m: Mask, id: u64) -> bool {
    &&& forall|i: int| 0 <= i < m.indexes.len() ==> (#[trigger] m.indexes[i]).0 != id
    &&& none_of(m.column_store, id)
    &&& none_of(m.direct, id)
}

/// Whether nothing in a list is experiment `id`'s.
pub open spec fn none_of(s: Seq<(u64, Seq<char>)>, id: u64) -> bool {
    forall|i: int| 0 <= i < s.len() ==> (#[trigger] s[i]).0 != id
}

pub open spec fn mask_empty(m: Mask) -> bool {
    m.indexes.len() == 0 && m.column_store.len() == 0 && m.direct.len() == 0
}

/// What is masked, in words.
pub open spec fn mask_words(m: Mask) -> Seq<Seq<char>> {
    m.indexes.map_values(
        |e: HiddenIndex| kind_text(e.3) + " index on "@ + e.1 + "."@ + e.2,
    ) + m.column_store.map_values(|e: (u64, Seq<char>)| "column store on "@ + e.1)
        + m.direct.map_values(|e: (u64, Seq<char>)| "direct lookup on "@ + e.1)
}

pub open spec fn mask_text(m: Mask) -> Seq<char> {
    if mask_empty(m) {
        "nothing"@
    } else {
        joined(mask_words(m), ", "@)
    }
}

pub open spec fn list_models(s: Seq<(u64, String)>) -> Seq<(u64, Seq<char>)> {
    s.map_values(|e: (u64, String)| (e.0, e.1@))
}

pub open spec fn index_models(s: Seq<(u64, String, String, IndexKind)>) -> Seq<HiddenIndex> {
    s.map_values(|e: (u64, String, String, IndexKind)| (e.0, e.1@, e.2@, e.3))
}

impl View for Candidates {
    type V = Mask;

    closed spec fn view(&self) -> Mask {
        Mask {
            indexes: index_models(self.indexes@),
            column_store: list_models(self.column_store@),
            direct: list_models(self.direct@),
        }
    }
}

impl Default for Candidates {
    fn default() -> (c: Candidates)
        ensures
            c@ == no_mask(),
    {
        let c = Candidates { indexes: Vec::new(), column_store: Vec::new(), direct: Vec::new() };
        assert(c@.indexes =~= Seq::empty());
        assert(c@.column_store =~= Seq::empty());
        assert(c@.direct =~= Seq::empty());
        c
    }
}

fn list_add(list: &mut Vec<(u64, String)>, id: u64, collection: &str)
    ensures
        list_models(final(list)@) == list_with(list_models(old(list)@), id, collection@),
{
    if collection.is_empty() {
        return;
    }
    let ghost before = list_models(list@);
    let mut i: usize = 0;
    while i < list.len()
        invariant
            i <= list.len(),
            list@ == old(list)@,
            before == list_models(list@),
            forall|k: int| 0 <= k < i ==> (#[trigger] before[k]).1 != collection@,
        decreases list.len() - i,
    {
        assert(before[i as int].1 == list@[i as int].1@);
        if str_eq(list[i].1.as_str(), collection) {
            return;
        }
        i += 1;
    }
    list.push((id, collection.to_owned()));
    assert(list_models(list@) =~= before.push((id, collection@)));
}

fn list_drop(list: &Vec<(u64, String)>, id: u64) -> (out: Vec<(u64, String)>)
    ensures
        list_models(out@) == other_listed(list_models(list@), id),
{
    let ghost all = list_models(list@);
    let mut out: Vec<(u64, String)> = Vec::new();
    assert(list_models(out@) =~= other_listed(all.take(0), id));
    let mut i: usize = 0;
    while i < list.len()
        invariant
            i <= list.len(),
            all == list_models(list@),
            list_models(out@) == other_listed(all.take(i as int), id),
        decreases list.len() - i,
    {
        let ghost held = out@;
        assert(all.take(i + 1).drop_last() =~= all.take(i as int));
        if list[i].0 != id {
            out.push((list[i].0, list[i].1.clone()));
            assert(list_models(out@) =~= list_models(held).push(all[i as int]));
        }
        i += 1;
    }
    assert(all.take(i as int) =~= all);
    out
}

fn list_own(list: &Vec<(u64, String)>, id: u64) -> (out: Vec<(u64, String)>)
    ensures
        list_models(out@) == own_listed(list_models(list@), id),
{
    let ghost all = list_models(list@);
    let mut out: Vec<(u64, String)> = Vec::new();
    assert(list_models(out@) =~= own_listed(all.take(0), id));
    let mut i: usize = 0;
    while i < list.len()
        invariant
            i <= list.len(),
            all == list_models(list@),
            list_models(out@) == own_listed(all.take(i as int), id),
        decreases list.len() - i,
    {
        let ghost held = out@;
        assert(all.take(i + 1).drop_last() =~= all.take(i as int));
        if list[i].0 == id {
            out.push((list[i].0, list[i].1.clone()));
            assert(list_models(out@) =~= list_models(held).push(all[i as int]));
        }
        i += 1;
    }
    assert(all.take(i as int) =~= all);
    out
}

fn list_hides(list: &Vec<(u64, String)>, revealed: Option<u64>, collection: &str) -> (r: bool)
    ensures
        r == list_hidden(list_models(list@), revealed, collection@),
{
    let ghost all = list_models(list@);
    let mut i: usize = 0;
    while i < list.len()
        invariant
            i <= list.len(),
            all == list_models(list@),
            forall|k: int|
                0 <= k < i ==> !(Some((#[trigger] all[k]).0) != revealed && all[k].1
                    == collection@),
        decreases list.len() - i,
    {
        assert(all[i as int] == (list@[i as int].0, list@[i as int].1@));
        let shown = match revealed {
            Some(id) => id == list[i].0,
            None => false,
        };
        if !shown && str_eq(list[i].1.as_str(), collection) {
            return true;
        }
        i += 1;
    }
    false
}

fn list_free_of(list: &Vec<(u64, String)>, id: u64) -> (r: bool)
    ensures
        r == none_of(list_models(list@), id),
{
    let ghost all = list_models(list@);
    let mut i: usize = 0;
    while i < list.len()
        invariant
            i <= list.len(),
            all == list_models(list@),
            forall|k: int| 0 <= k < i ==> (#[trigger] all[k]).0 != id,
        decreases list.len() - i,
    {
        assert(all[i as int].0 == list@[i as int].0);
        if list[i].0 == id {
            return false;
        }
        i += 1;
    }
    true
}

impl Candidates {
    /// Note a structure experiment `id` just built. `for_collection` is what that
    /// experiment is about.
    pub fn record(&mut self, id: u64, action: &Action, for_collection: &str)
        ensures
            final(self)@ == mask_with(old(self)@, id, action@, for_collection@),
    {
        match action {
            Action::CreateIndex { collection, field, kind } => {
                let ghost before = self.indexes@;
                self.indexes.push((id, collection.clone(), field.clone(), *kind));
                assert(index_models(self.indexes@) =~= index_models(before).push(
                    (id, collection@, field@, *kind),
                ));
            },
            Action::SetColumnStore(true) => {
                list_add(&mut self.column_store, id, for_collection);
            },
            Action::SetDirectLookup(true) => {
                list_add(&mut self.direct, id, for_collection);
            },
            _ => {},
        }
    }

    /// Drop everything experiment `id` contributed, leaving every other mask in
    /// place.
    pub fn forget(&mut self, id: u64)
        ensures
            final(self)@ == mask_without(old(self)@, id),
    {
        let ghost all = index_models(self.indexes@);
        let mut kept: Vec<(u64, String, String, IndexKind)> = Vec::new();
        assert(index_models(kept@) =~= other_indexes(all.take(0), id));
        let mut i: usize = 0;
        while i < self.indexes.len()
            invariant
                i <= self.indexes.len(),
                *self == *old(self),
                all == index_models(self.indexes@),
                index_models(kept@) == other_indexes(all.take(i as int), id),
            decreases self.indexes.len() - i,
        {
            let ghost held = kept@;
            assert(all.take(i + 1).drop_last() =~= all.take(i as int));
            let e = &self.indexes[i];
            if e.0 != id {
                kept.push((e.0, e.1.clone(), e.2.clone(), e.3));
                assert(index_models(kept@) =~= index_models(held).push(all[i as int]));
            }
            i += 1;
        }
        assert(all.take(i as int) =~= all);
        self.indexes = kept;
        self.column_store = list_drop(&self.column_store, id);
        self.direct = list_drop(&self.direct, id);
    }

    /// What experiment `id` alone contributed.
    pub fn only(&self, id: u64) -> (c: Candidates)
        ensures
            c@ == mask_of(self@, id),
    {
        let ghost all = index_models(self.indexes@);
        let mut kept: Vec<(u64, String, String, IndexKind)> = Vec::new();
        assert(index_models(kept@) =~= own_indexes(all.take(0), id));
        let mut i: usize = 0;
        while i < self.indexes.len()
            invariant
                i <= self.indexes.len(),
                all == index_models(self.indexes@),
                index_models(kept@) == own_indexes(all.take(i as int), id),
            decreases self.indexes.len() - i,
        {
            let ghost held = kept@;
            assert(all.take(i + 1).drop_last() =~= all.take(i as int));
            let e = &self.indexes[i];
            if e.0 == id {
                kept.push((e.0, e.1.clone(), e.2.clone(), e.3));
                assert(index_models(kept@) =~= index_models(held).push(all[i as int]));
            }
            i += 1;
        }
        assert(all.take(i as int) =~= all);
        Candidates {
            indexes: kept,
            column_store: list_own(&self.column_store, id),
            direct: list_own(&self.direct, id),
        }
    }

    pub fn is_empty(&self) -> (r: bool)
        ensures
            r == mask_empty(self@),
    {
        self.indexes.len() == 0 && self.column_store.len() == 0 && self.direct.len() == 0
    }

    /// Whether nothing at all is masked for experiment `id`.
    pub fn is_empty_for(&self, id: u64) -> (r: bool)
        ensures
            r == mask_empty_for(self@, id),
    {
        let ghost all = self@.indexes;
        let mut i: usize = 0;
        while i < self.indexes.len()
            invariant
                i <= self.indexes.len(),
                all == self@.indexes,
                all.len() == self.indexes@.len(),
                forall|k: int| 0 <= k < i ==> (#[trigger] all[k]).0 != id,
            decreases self.indexes.len() - i,
        {
            assert(all[i as int].0 == self.indexes@[i as int].0);
            if self.indexes[i].0 == id {
                return false;
            }
            i += 1;
        }
        list_free_of(&self.column_store, id) && list_free_of(&self.direct, id)
    }

    /// Whether this index is an unproven candidate that must stay hidden.
    /// `revealed` names the one experiment whose candidate the current query is
    /// allowed to see.
    pub fn hides_index(
        &self,
        revealed: Option<u64>,
        collection: &str,
        field: &str,
        kind: IndexKind,
    ) -> (r: bool)
        ensures
            r == index_hidden(self@, revealed, collection@, field@, kind),
    {
        let ghost all = self@.indexes;
        let mut i: usize = 0;
        while i < self.indexes.len()
            invariant
                i <= self.indexes.len(),
                all == self@.indexes,
                all.len() == self.indexes@.len(),
                forall|k: int|
                    0 <= k < i ==> !(Some((#[trigger] all[k]).0) != revealed && all[k].1
                        == collection@ && all[k].2 == field@ && all[k].3 == kind),
            decreases self.indexes.len() - i,
        {
            let e = &self.indexes[i];
            assert(all[i as int] == (e.0, e.1@, e.2@, e.3));
            let shown = match revealed {
                Some(id) => id == e.0,
                None => false,
            };
            if !shown && str_eq(e.1.as_str(), collection) && str_eq(e.2.as_str(), field) && e.3
                == kind {
                return true;
            }
            i += 1;
        }
        false
    }

    /// Whether this collection's column store is an unproven candidate.
    pub fn hides_column_store(&self, revealed: Option<u64>, collection: &str) -> (r: bool)
        ensures
            r == list_hidden(self@.column_store, revealed, collection@),
    {
        list_hides(&self.column_store, revealed, collection)
    }

    /// Whether this collection's direct array is an unproven candidate.
    pub fn hides_direct(&self, revealed: Option<u64>, collection: &str) -> (r: bool)
        ensures
            r == list_hidden(self@.direct, revealed, collection@),
    {
        list_hides(&self.direct, revealed, collection)
    }

    /// A copy of the mask.
    pub fn dup(&self) -> (c: Candidates)
        ensures
            c@ == self@,
    {
        let mut indexes: Vec<(u64, String, String, IndexKind)> = Vec::new();
        let mut i: usize = 0;
        while i < self.indexes.len()
            invariant
                i <= self.indexes.len(),
                indexes@.len() == i,
                forall|k: int|
                    0 <= k < i ==> #[trigger] index_models(indexes@)[k] == index_models(
                        self.indexes@,
                    )[k],
            decreases self.indexes.len() - i,
        {
            let e = &self.indexes[i];
            let ghost held = indexes@;
            indexes.push((e.0, e.1.clone(), e.2.clone(), e.3));
            assert forall|k: int| 0 <= k < i + 1 implies #[trigger] index_models(indexes@)[k]
                == index_models(self.indexes@)[k] by {
                if k < i {
                    assert(index_models(held)[k] == index_models(self.indexes@)[k]);
                }
            }
            i += 1;
        }
        assert(index_models(indexes@) =~= index_models(self.indexes@));
        Candidates {
            indexes,
            column_store: dup_list(&self.column_store),
            direct: dup_list(&self.direct),
        }
    }

    /// What is masked, in words.
    pub fn describe(&self) -> (s: String)
        ensures
            s@ == mask_text(self@),
    {
        if self.is_empty() {
            return "nothing".to_owned();
        }
        let ghost want = mask_words(self@);
        let mut parts: Vec<String> = Vec::new();
        let mut i: usize = 0;
        while i < self.indexes.len()
            invariant
                i <= self.indexes.len(),
                want == mask_words(self@),
                self@.indexes.len() == self.indexes@.len(),
                parts@.len() == i,
                forall|k: int| 0 <= k < i ==> #[trigger] parts@[k]@ == want[k],
            decreases self.indexes.len() - i,
        {
            let e = &self.indexes[i];
            let mut s = e.3.as_str().to_owned();
            s.append(" index on ");
            s.append(e.1.as_str());
            s.append(".");
            s.append(e.2.as_str());
            assert(self@.indexes[i as int] == (e.0, e.1@, e.2@, e.3));
            parts.push(s);
            i += 1;
        }
        let mut j: usize = 0;
        while j < self.column_store.len()
            invariant
                j <= self.column_store.len(),
                want == mask_words(self@),
                self@.indexes.len() == self.indexes@.len(),
                self@.column_store.len() == self.column_store@.len(),
                parts@.len() == self.indexes@.len() + j,
                forall|k: int| 0 <= k < parts@.len() ==> #[trigger] parts@[k]@ == want[k],
            decreases self.column_store.len() - j,
        {
            let mut s = "column store on ".to_owned();
            s.append(self.column_store[j].1.as_str());
            assert(self@.column_store[j as int].1 == self.column_store@[j as int].1@);
            assert(want[self.indexes@.len() + j] == s@);
            parts.push(s);
            j += 1;
        }
        let mut n: usize = 0;
        while n < self.direct.len()
            invariant
                n <= self.direct.len(),
                want == mask_words(self@),
                self@.indexes.len() == self.indexes@.len(),
                self@.column_store.len() == self.column_store@.len(),
                self@.direct.len() == self.direct@.len(),
                parts@.len() == self.indexes@.len() + self.column_store@.len() + n,
                forall|k: int| 0 <= k < parts@.len() ==> #[trigger] parts@[k]@ == want[k],
            decreases self.direct.len() - n,
        {
            let mut s = "direct lookup on ".to_owned();
            s.append(self.direct[n].1.as_str());
            assert(self@.direct[n as int].1 == self.direct@[n as int].1@);
            assert(want[self.indexes@.len() + self.column_store@.len() + n] == s@);
            parts.push(s);
            n += 1;
        }
        assert(texts(parts@) =~= want);
        join(&parts, ", ")
    }
}

fn dup_list(list: &Vec<(u64, String)>) -> (out: Vec<(u64, String)>)
    ensures
        list_models(out@) == list_models(list@),
{
    let mut out: Vec<(u64, String)> = Vec::new();
    let mut i: usize = 0;
    while i < list.len()
        invariant
            i <= list.len(),
            out@.len() == i,
            forall|k: int|
                0 <= k < i ==> (#[trigger] out@[k]).0 == list@[k].0 && out@[k].1@ == list@[k].1@,
        decreases list.len() - i,
    {
        out.push((list[i].0, list[i].1.clone()));
        i += 1;
    }
    assert(list_models(out@) =~= list_models(list@));
    out
}

// -- laws of the mask --------------------------------------------------------

proof fn lemma_other_indexes(s: Seq<HiddenIndex>, id: u64, e: HiddenIndex)
    ensures
        other_indexes(s, id).contains(e) == (s.contains(e) && e.0 != id),
    decreases s.len(),
{
    if s.len() > 0 {
        let rest = s.drop_last();
        lemma_other_indexes(rest, id, e);
        let kept = other_indexes(rest, id);
        let all = other_indexes(s, id);
        if rest.contains(e) {
            let i = choose|i: int| 0 <= i < rest.len() && rest[i] == e;
            assert(s[i] == e);
        }
        if s.contains(e) && e != s.last() {
            let i = choose|i: int| 0 <= i < s.len() && s[i] == e;
            assert(rest[i] == e);
        }
        if kept.contains(e) {
            let i = choose|i: int| 0 <= i < kept.len() && kept[i] == e;
            assert(all[i] == e);
        }
        if e == s.last() {
            assert(s[s.len() - 1] == e);
            if e.0 != id {
                assert(all[kept.len() as int] == e);
            }
        }
        if all.contains(e) && s.last().0 != id {
            let i = choose|i: int| 0 <= i < all.len() && all[i] == e;
            if i < kept.len() {
                assert(kept[i] == e);
            }
        }
    }
}

proof fn lemma_other_listed(s: Seq<(u64, Seq<char>)>, id: u64, e: (u64, Seq<char>))
    ensures
        other_listed(s, id).contains(e) == (s.contains(e) && e.0 != id),
    decreases s.len(),
{
    if s.len() > 0 {
        let rest = s.drop_last();
        lemma_other_listed(rest, id, e);
        let kept = other_listed(rest, id);
        let all = other_listed(s, id);
        if rest.contains(e) {
            let i = choose|i: int| 0 <= i < rest.len() && rest[i] == e;
            assert(s[i] == e);
        }
        if s.contains(e) && e != s.last() {
            let i = choose|i: int| 0 <= i < s.len() && s[i] == e;
            assert(rest[i] == e);
        }
        if kept.contains(e) {
            let i = choose|i: int| 0 <= i < kept.len() && kept[i] == e;
            assert(all[i] == e);
        }
        if e == s.last() {
            assert(s[s.len() - 1] == e);
            if e.0 != id {
                assert(all[kept.len() as int] == e);
            }
        }
        if all.contains(e) && s.last().0 != id {
            let i = choose|i: int| 0 <= i < all.len() && all[i] == e;
            if i < kept.len() {
                assert(kept[i] == e);
            }
        }
    }
}

/// Retiring one experiment leaves another's candidates hidden: what a different
/// experiment masked is masked still, unless it is the one revealed.
pub proof fn retiring_one_experiment_keeps_the_others_hidden(
    m: Mask,
    retired: u64,
    owner: u64,
    revealed: Option<u64>,
    collection: Seq<char>,
    field: Seq<char>,
    kind: IndexKind,
)
    requires
        owner != retired,
        revealed != Some(owner),
    ensures
        m.indexes.contains((owner, collection, field, kind)) ==> index_hidden(
            mask_without(m, retired),
            revealed,
            collection,
            field,
            kind,
        ),
        m.column_store.contains((owner, collection)) ==> list_hidden(
            mask_without(m, retired).column_store,
            revealed,
            collection,
        ),
        m.direct.contains((owner, collection)) ==> list_hidden(
            mask_without(m, retired).direct,
            revealed,
            collection,
        ),
{
    let e = (owner, collection, field, kind);
    let l = (owner, collection);
    lemma_other_indexes(m.indexes, retired, e);
    lemma_other_listed(m.column_store, retired, l);
    lemma_other_listed(m.direct, retired, l);
    let after = mask_without(m, retired);
    if m.indexes.contains(e) {
        let i = choose|i: int| 0 <= i < after.indexes.len() && after.indexes[i] == e;
        assert(after.indexes[i].0 == owner);
    }
    if m.column_store.contains(l) {
        let i = choose|i: int| 0 <= i < after.column_store.len() && after.column_store[i] == l;
        assert(after.column_store[i].0 == owner);
    }
    if m.direct.contains(l) {
        let i = choose|i: int| 0 <= i < after.direct.len() && after.direct[i] == l;
        assert(after.direct[i].0 == owner);
    }
}

/// Once an experiment is forgotten nothing is masked on its account.
pub proof fn a_forgotten_experiment_masks_nothing(m: Mask, id: u64)
    ensures
        mask_empty_for(mask_without(m, id), id),
{
    let after = mask_without(m, id);
    assert forall|i: int| 0 <= i < after.indexes.len() implies (#[trigger] after.indexes[i]).0
        != id by {
        lemma_other_indexes(m.indexes, id, after.indexes[i]);
        assert(after.indexes.contains(after.indexes[i]));
    }
    assert forall|i: int| 0 <= i < after.column_store.len() implies (
    #[trigger] after.column_store[i]).0 != id by {
        lemma_other_listed(m.column_store, id, after.column_store[i]);
        assert(after.column_store.contains(after.column_store[i]));
    }
    assert forall|i: int| 0 <= i < after.direct.len() implies (#[trigger] after.direct[i]).0
        != id by {
        lemma_other_listed(m.direct, id, after.direct[i]);
        assert(after.direct.contains(after.direct[i]));
    }
}

/// A freshly built index is hidden from every query but its own experiment's.
pub proof fn a_new_candidate_is_hidden(
    m: Mask,
    id: u64,
    collection: Seq<char>,
    field: Seq<char>,
    kind: IndexKind,
    about: Seq<char>,
    revealed: Option<u64>,
)
    requires
        revealed != Some(id),
    ensures
        index_hidden(
            mask_with(m, id, ActionModel::CreateIndex { collection, field, kind }, about),
            revealed,
            collection,
            field,
            kind,
        ),
{
    let after = mask_with(m, id, ActionModel::CreateIndex { collection, field, kind }, about);
    assert(after.indexes[m.indexes.len() as int].0 == id);
}

// -- scopes ------------------------------------------------------------------

/// Whether two experiment scopes could see each other's traffic. The empty scope
/// takes every query.
pub open spec fn overlapping(a: Seq<char>, b: Seq<char>) -> bool {
    a.len() == 0 || b.len() == 0 || a == b
}

/// Whether two experiment scopes could see each other's traffic.
pub fn scopes_overlap(a: &str, b: &str) -> (r: bool)
    ensures
        r == overlapping(a@, b@),
{
    a.is_empty() || b.is_empty() || str_eq(a, b)
}

/// Overlap is mutual.
pub proof fn overlap_is_mutual(a: Seq<char>, b: Seq<char>)
    ensures
        overlapping(a, b) == overlapping(b, a),
        overlapping(a, a),
{
}

// -- one experiment ----------------------------------------------------------

/// What one side of an experiment measured.
#[derive(Clone, Copy, Debug, PartialEq, Eq, Structural)]
pub struct Measurement {
    pub samples: u64,
    pub p50_nanos: u64,
    pub p99_nanos: u64,
    pub errors: u64,
    pub ram_bytes: u64,
}

/// An experiment with its evidence, mid-flight.
pub struct LiveExperiment {
    pub id: u64,
    pub decision: Decision,
    pub phase: Phase,
    /// Only queries against this collection take part; the empty name means
    /// every query does.
    pub collection: String,
    /// What the change built. Filled in when the experiment ends.
    pub candidates: Candidates,
    pub shadow: ShadowReport,
    /// How many queries each side served in this phase, and how many failed.
    pub baseline_served: u64,
    pub candidate_served: u64,
    pub baseline_errors: u64,
    pub candidate_errors: u64,
    /// Queries considered for routing so far.
    pub routed: u64,
    /// Derived-representation footprint before the build.
    pub ram_before: u64,
    /// The evidence as last folded.
    pub baseline: Measurement,
    pub candidate: Measurement,
    pub divergences: u64,
}

/// What a [`LiveExperiment`] holds.
pub struct LiveModel {
    pub id: u64,
    pub decision: DecisionModel,
    pub phase: Phase,
    pub collection: Seq<char>,
    pub candidates: Mask,
    pub shadow: crate::shadow::ReportModel,
    pub baseline_served: u64,
    pub candidate_served: u64,
    pub baseline_errors: u64,
    pub candidate_errors: u64,
    pub routed: u64,
    pub ram_before: u64,
    pub baseline: Measurement,
    pub candidate: Measurement,
    pub divergences: u64,
}

impl View for LiveExperiment {
    type V = LiveModel;

    open spec fn view(&self) -> LiveModel {
        LiveModel {
            id: self.id,
            decision: self.decision@,
            phase: self.phase,
            collection: self.collection@,
            candidates: self.candidates@,
            shadow: self.shadow@,
            baseline_served: self.baseline_served,
            candidate_served: self.candidate_served,
            baseline_errors: self.baseline_errors,
            candidate_errors: self.candidate_errors,
            routed: self.routed,
            ram_before: self.ram_before,
            baseline: self.baseline,
            candidate: self.candidate,
            divergences: self.divergences,
        }
    }
}

/// Whether the query that comes after `n` others is served by the candidate when
/// `percent` of every hundred are: whenever the share owed grows by a whole
/// query.
pub open spec fn routes(n: nat, percent: nat) -> bool {
    ((n + 1) * percent) / 100 > (n * percent) / 100
}

/// How many of the `count` queries that come after `n` others are served by the
/// candidate.
pub open spec fn routed_among(n: nat, count: nat, percent: nat) -> nat
    decreases count,
{
    if count == 0 {
        0
    } else {
        routed_among(n, (count - 1) as nat, percent) + if routes((n + count - 1) as nat, percent) {
            1nat
        } else {
            0
        }
    }
}

proof fn lemma_routed_share(n: nat, count: nat, percent: nat)
    requires
        percent <= 100,
    ensures
        routed_among(n, count, percent) == ((n + count) * percent) / 100 - (n * percent) / 100,
    decreases count,
{
    if count > 0 {
        let k = (n + count - 1) as nat;
        lemma_routed_share(n, (count - 1) as nat, percent);
        assert((k + 1) * percent == k * percent + percent) by (nonlinear_arith);
    }
}

/// Of any hundred queries in a row exactly the named percentage is served by the
/// candidate.
pub proof fn routing_is_exact(n: nat, percent: nat)
    requires
        percent <= 100,
    ensures
        routed_among(n, 100, percent) == percent,
{
    lemma_routed_share(n, 100, percent);
    assert((n + 100) * percent == n * percent + 100 * percent) by (nonlinear_arith);
}

/// Of any run of queries the candidate's share is never off by a whole query:
/// routing is spread, not clumped.
pub proof fn routing_is_even(n: nat, count: nat, percent: nat)
    requires
        percent <= 100,
    ensures
        count * percent - 100 < 100 * routed_among(n, count, percent) < count * percent + 100,
{
    lemma_routed_share(n, count, percent);
    assert((n + count) * percent == n * percent + count * percent) by (nonlinear_arith);
}

/// Nothing is routed at zero, everything at a hundred percent.
pub proof fn routing_extremes(n: nat)
    ensures
        !routes(n, 0),
        routes(n, 100),
{
}

/// An experiment that has only been proposed.
pub open spec fn proposed(id: u64, decision: DecisionModel, collection: Seq<char>) -> LiveModel {
    LiveModel {
        id,
        decision,
        phase: Phase::Proposed,
        collection,
        candidates: no_mask(),
        shadow: no_trials(),
        baseline_served: 0,
        candidate_served: 0,
        baseline_errors: 0,
        candidate_errors: 0,
        routed: 0,
        ram_before: 0,
        baseline: no_measurement(),
        candidate: no_measurement(),
        divergences: 0,
    }
}

pub open spec fn no_measurement() -> Measurement {
    Measurement { samples: 0, p50_nanos: 0, p99_nanos: 0, errors: 0, ram_bytes: 0 }
}

/// What a size grew by. Shrinking counts as nothing.
pub open spec fn growth(now: u64, before: u64) -> u64 {
    if now > before {
        (now - before) as u64
    } else {
        0
    }
}

impl LiveExperiment {
    pub fn new(id: u64, decision: Decision, collection: String) -> (e: LiveExperiment)
        ensures
            e@ == proposed(id, decision@, collection@),
    {
        let nothing = Measurement {
            samples: 0,
            p50_nanos: 0,
            p99_nanos: 0,
            errors: 0,
            ram_bytes: 0,
        };
        LiveExperiment {
            id,
            decision,
            phase: Phase::Proposed,
            collection,
            candidates: Candidates::default(),
            shadow: ShadowReport::default(),
            baseline_served: 0,
            candidate_served: 0,
            baseline_errors: 0,
            candidate_errors: 0,
            routed: 0,
            ram_before: 0,
            baseline: nothing,
            candidate: nothing,
            divergences: 0,
        }
    }

    pub fn phase(&self) -> (p: Phase)
        ensures
            p == self@.phase,
    {
        self.phase
    }

    pub fn set_ram_before(&mut self, bytes: u64)
        ensures
            final(self)@ == (LiveModel { ram_before: bytes, ..old(self)@ }),
    {
        self.ram_before = bytes;
    }

    /// Forget the latency evidence on entering a new measuring phase: each phase
    /// earns its own promotion. Divergences are not forgotten.
    pub fn reset_measurements(&mut self)
        ensures
            final(self)@ == (LiveModel {
                baseline_served: 0,
                candidate_served: 0,
                baseline_errors: 0,
                candidate_errors: 0,
                ..old(self)@
            }),
    {
        self.baseline_served = 0;
        self.candidate_served = 0;
        self.baseline_errors = 0;
        self.candidate_errors = 0;
    }

    /// Whether the next query should be served by the candidate. A function of
    /// how many queries came before, not of chance.
    pub fn route(&mut self, percent: u8) -> (candidate: bool)
        ensures
            candidate == routes(old(self)@.routed as nat, percent as nat),
            final(self)@ == (LiveModel { routed: ticked(old(self)@.routed), ..old(self)@ }),
    {
        let n: u128 = self.routed as u128;
        let p: u128 = percent as u128;
        self.routed = tick(self.routed);
        assert(0 <= n * p <= (n + 1) * p <= 0x1_0000_0000_0000_0000 * 255) by (nonlinear_arith)
            requires
                n < 0x1_0000_0000_0000_0000,
                p <= 255,
        ;
        (n + 1) * p / 100 > n * p / 100
    }

    pub fn record_baseline(&mut self, ok: bool)
        ensures
            final(self)@ == (LiveModel {
                baseline_served: ticked(old(self)@.baseline_served),
                baseline_errors: if ok {
                    old(self)@.baseline_errors
                } else {
                    ticked(old(self)@.baseline_errors)
                },
                ..old(self)@
            }),
    {
        self.baseline_served = tick(self.baseline_served);
        if !ok {
            self.baseline_errors = tick(self.baseline_errors);
        }
    }

    pub fn record_candidate(&mut self, ok: bool)
        ensures
            final(self)@ == (LiveModel {
                candidate_served: ticked(old(self)@.candidate_served),
                candidate_errors: if ok {
                    old(self)@.candidate_errors
                } else {
                    ticked(old(self)@.candidate_errors)
                },
                ..old(self)@
            }),
    {
        self.candidate_served = tick(self.candidate_served);
        if !ok {
            self.candidate_errors = tick(self.candidate_errors);
        }
    }

    /// Fold the accumulated evidence into the form it is judged in. The latency
    /// percentiles are those of the queries each side served. The candidate's
    /// memory is what the footprint grew by; divergences are carried forward
    /// through every later phase.
    pub fn fold(
        &mut self,
        ram_now: u64,
        baseline_p50: u64,
        baseline_p99: u64,
        candidate_p50: u64,
        candidate_p99: u64,
    )
        ensures
            final(self)@ == folded(
                old(self)@,
                ram_now,
                (baseline_p50, baseline_p99),
                (candidate_p50, candidate_p99),
            ),
    {
        self.baseline = Measurement {
            samples: self.baseline_served,
            p50_nanos: baseline_p50,
            p99_nanos: baseline_p99,
            errors: self.baseline_errors,
            ram_bytes: 0,
        };
        let grown: u64 = if ram_now > self.ram_before {
            ram_now - self.ram_before
        } else {
            0
        };
        self.candidate = Measurement {
            samples: self.candidate_served,
            p50_nanos: candidate_p50,
            p99_nanos: candidate_p99,
            errors: self.candidate_errors,
            ram_bytes: grown,
        };
        self.divergences = self.shadow.divergences();
    }

    /// The experiment in words, after what its state machine says of itself.
    pub fn explain(&self, head: &str) -> (s: String)
        ensures
            exists|shadow: Seq<char>| #[trigger]
                says(self@.shadow, shadow) && s@ == live_text(self@, head@, shadow),
    {
        let mut s = head.to_owned();
        s.append("  candidate: ");
        s.append(self.candidates.describe().as_str());
        s.append("\n  shadow: ");
        let shadow = self.shadow.describe();
        s.append(shadow.as_str());
        s.append("\n  served: ");
        push_dec(&mut s, self.baseline_served);
        s.append(" baseline, ");
        push_dec(&mut s, self.candidate_served);
        s.append(" candidate\n");
        if let Some(d) = self.shadow.first_divergence() {
            s.append("  first divergence: ");
            s.append(d);
            s.append("\n");
        }
        assert(s@ == live_text(self@, head@, shadow@));
        s
    }
}

/// An experiment whose evidence was folded.
pub open spec fn folded(
    m: LiveModel,
    ram_now: u64,
    baseline: (u64, u64),
    candidate: (u64, u64),
) -> LiveModel {
    LiveModel {
        baseline: Measurement {
            samples: m.baseline_served,
            p50_nanos: baseline.0,
            p99_nanos: baseline.1,
            errors: m.baseline_errors,
            ram_bytes: 0,
        },
        candidate: Measurement {
            samples: m.candidate_served,
            p50_nanos: candidate.0,
            p99_nanos: candidate.1,
            errors: m.candidate_errors,
            ram_bytes: growth(ram_now, m.ram_before),
        },
        divergences: m.shadow.divergences,
        ..m
    }
}

/// An experiment in words, given what its trials showed.
pub open spec fn live_text(m: LiveModel, head: Seq<char>, shadow: Seq<char>) -> Seq<char> {
    let body = head + "  candidate: "@ + mask_text(m.candidates) + "\n  shadow: "@ + shadow
        + "\n  served: "@ + dec_text(m.baseline_served as nat) + " baseline, "@ + dec_text(
        m.candidate_served as nat,
    ) + " candidate\n"@;
    match m.shadow.first_divergence {
        Some(d) => body + "  first divergence: "@ + d + "\n"@,
        None => body,
    }
}

// -- what a mask hides -------------------------------------------------------------

proof fn lemma_masks_are_filters(m: Seq<HiddenIndex>, s: Seq<(u64, Seq<char>)>, id: u64)
    ensures
        other_indexes(m, id) == m.filter(|e: HiddenIndex| e.0 != id),
        own_indexes(m, id) == m.filter(|e: HiddenIndex| e.0 == id),
        other_listed(s, id) == s.filter(|e: (u64, Seq<char>)| e.0 != id),
        own_listed(s, id) == s.filter(|e: (u64, Seq<char>)| e.0 == id),
    decreases m.len() + s.len(),
{
    reveal(Seq::filter);
    if m.len() > 0 && s.len() > 0 {
        lemma_masks_are_filters(m.drop_last(), s.drop_last(), id);
    } else if m.len() > 0 {
        lemma_masks_are_filters(m.drop_last(), s, id);
    } else if s.len() > 0 {
        lemma_masks_are_filters(m, s.drop_last(), id);
    }
}

/// Forgetting an experiment takes what it contributed to a mask and leaves the rest, in
/// its order; what it contributed is what is taken.
pub proof fn a_mask_comes_apart_by_experiment(m: Mask, id: u64)
    ensures
        mask_without(m, id).indexes == m.indexes.filter(|e: HiddenIndex| e.0 != id),
        mask_of(m, id).indexes == m.indexes.filter(|e: HiddenIndex| e.0 == id),
        mask_without(m, id).column_store == m.column_store.filter(
            |e: (u64, Seq<char>)| e.0 != id,
        ),
        mask_of(m, id).column_store == m.column_store.filter(|e: (u64, Seq<char>)| e.0 == id),
        mask_without(m, id).direct == m.direct.filter(|e: (u64, Seq<char>)| e.0 != id),
        mask_of(m, id).direct == m.direct.filter(|e: (u64, Seq<char>)| e.0 == id),
{
    lemma_masks_are_filters(m.indexes, m.column_store, id);
    lemma_masks_are_filters(m.indexes, m.direct, id);
}

/// Building an index hides that index from every query but those shown the experiment's
/// candidate, and changes what is hidden of no other.
pub proof fn building_an_index_hides_that_index_alone(
    m: Mask,
    id: u64,
    collection: Seq<char>,
    field: Seq<char>,
    kind: IndexKind,
    about: Seq<char>,
    revealed: Option<u64>,
    c: Seq<char>,
    f: Seq<char>,
    k: IndexKind,
)
    ensures
        ({
            let after = mask_with(m, id, ActionModel::CreateIndex { collection, field, kind }, about);
            &&& index_hidden(after, revealed, c, f, k) <==> index_hidden(m, revealed, c, f, k) || (c
                == collection && f == field && k == kind && revealed != Some(id))
            &&& after.column_store == m.column_store
            &&& after.direct == m.direct
        }),
{
    let after = mask_with(m, id, ActionModel::CreateIndex { collection, field, kind }, about);
    let n = m.indexes.len() as int;
    assert(after.indexes[n] == (id, collection, field, kind));
    if index_hidden(m, revealed, c, f, k) {
        let i = choose|i: int|
            0 <= i < n && Some((#[trigger] m.indexes[i]).0) != revealed && m.indexes[i].1 == c
                && m.indexes[i].2 == f && m.indexes[i].3 == k;
        assert(after.indexes[i] == m.indexes[i]);
    }
    if index_hidden(after, revealed, c, f, k) {
        let i = choose|i: int|
            0 <= i < after.indexes.len() && Some((#[trigger] after.indexes[i]).0) != revealed
                && after.indexes[i].1 == c && after.indexes[i].2 == f && after.indexes[i].3 == k;
        if i < n {
            assert(m.indexes[i] == after.indexes[i]);
        }
    }
}

/// Switching columnar copies or arrays on hides them for the collection the experiment is
/// about, unless another experiment's are hidden there already, and for no other. Any
/// other change hides nothing.
pub proof fn switching_a_structure_on_hides_it_for_its_collection(
    m: Mask,
    id: u64,
    action: ActionModel,
    about: Seq<char>,
    revealed: Option<u64>,
    c: Seq<char>,
)
    requires
        !(action is CreateIndex),
    ensures
        ({
            let after = mask_with(m, id, action, about);
            let new = c == about && c.len() > 0 && revealed != Some(id);
            &&& after.indexes == m.indexes
            &&& list_hidden(after.column_store, revealed, c) <==> list_hidden(
                m.column_store,
                revealed,
                c,
            ) || (action == ActionModel::SetColumnStore(true) && new && !listed(m.column_store, c))
            &&& list_hidden(after.direct, revealed, c) <==> list_hidden(m.direct, revealed, c) || (
            action == ActionModel::SetDirectLookup(true) && new && !listed(m.direct, c))
        }),
{
    lemma_list_with(m.column_store, id, about, revealed, c);
    lemma_list_with(m.direct, id, about, revealed, c);
}

proof fn lemma_list_with(
    s: Seq<(u64, Seq<char>)>,
    id: u64,
    about: Seq<char>,
    revealed: Option<u64>,
    c: Seq<char>,
)
    ensures
        list_hidden(list_with(s, id, about), revealed, c) <==> list_hidden(s, revealed, c) || (c
            == about && c.len() > 0 && revealed != Some(id) && !listed(s, c)),
{
    let after = list_with(s, id, about);
    if about.len() > 0 && !listed(s, about) {
        assert(after[s.len() as int] == (id, about));
    }
    if list_hidden(s, revealed, c) {
        let i = choose|i: int|
            0 <= i < s.len() && Some((#[trigger] s[i]).0) != revealed && s[i].1 == c;
        assert(after[i] == s[i]);
    }
    if list_hidden(after, revealed, c) {
        let i = choose|i: int|
            0 <= i < after.len() && Some((#[trigger] after[i]).0) != revealed && after[i].1 == c;
        if i < s.len() {
            assert(s[i] == after[i]);
        }
    }
}

/// Two experiments overlap exactly where some collection's queries are for both: an
/// experiment with no collection of its own takes the queries of every one.
pub proof fn experiments_overlap_where_they_share_queries(a: Seq<char>, b: Seq<char>)
    ensures
        overlapping(a, b) <==> exists|c: Seq<char>|
            #![trigger c.len()]
            c.len() > 0 && (a.len() == 0 || a == c) && (b.len() == 0 || b == c),
{
    let c = if a.len() > 0 {
        a
    } else if b.len() > 0 {
        b
    } else {
        seq!['a']
    };
    assert(c.len() > 0);
}

/// Evidence is of what was served: each side's samples and failures are what was counted
/// of it, its percentiles those measured, and the candidate's memory is what the
/// footprint grew by since before it was built, never less than nothing. What its trials
/// diverged in goes with it.
pub proof fn evidence_is_of_what_was_served(
    m: LiveModel,
    ram_now: u64,
    baseline: (u64, u64),
    candidate: (u64, u64),
)
    ensures
        ({
            let f = folded(m, ram_now, baseline, candidate);
            &&& f.baseline.samples == m.baseline_served && f.candidate.samples == m.candidate_served
            &&& f.baseline.errors == m.baseline_errors && f.candidate.errors == m.candidate_errors
            &&& (f.baseline.p50_nanos, f.baseline.p99_nanos) == baseline
            &&& (f.candidate.p50_nanos, f.candidate.p99_nanos) == candidate
            &&& f.baseline.ram_bytes == 0
            &&& ram_now >= m.ram_before ==> m.ram_before + f.candidate.ram_bytes == ram_now
            &&& ram_now <= m.ram_before ==> f.candidate.ram_bytes == 0
            &&& f.divergences == m.shadow.divergences
            &&& f.phase == m.phase && f.id == m.id && f.shadow == m.shadow && f.routed == m.routed
        }),
{
}

/// A proposed experiment has built nothing, served nothing and shown nothing yet.
pub proof fn a_proposed_experiment_has_no_evidence(
    id: u64,
    decision: DecisionModel,
    collection: Seq<char>,
)
    ensures
        ({
            let m = proposed(id, decision, collection);
            &&& m.id == id && m.decision == decision && m.collection == collection
            &&& m.phase is Proposed
            &&& m.candidates.indexes.len() == 0 && m.candidates.column_store.len() == 0
                && m.candidates.direct.len() == 0
            &&& m.baseline_served == 0 && m.candidate_served == 0 && m.routed == 0
            &&& m.baseline_errors == 0 && m.candidate_errors == 0 && m.divergences == 0
        }),
{
}

} // verus!
