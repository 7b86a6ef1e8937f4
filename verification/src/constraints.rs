//! Holding writes to unique constraints.
//!
//! A constrained field has an index, and a write is refused where the index
//! finds its value under another id. Where the index was lost, the rows themselves
//! are asked. An absent value is no duplicate of another
//! absent one.

use vstd::prelude::*;
use vstd::string::*;
use crate::action::IndexKind;
use crate::assoc::{lemma_find_at, lemma_find_some};
use crate::caches::{rows_model, Rows};
use crate::derived::Derived;
use crate::error::{Error, ErrorModel};
use crate::index::{
    faithful, ids_under, key_under, lemma_ids_under, value_in, Index, IndexModel, Keeps, Records,
    Shape, ShapeModel,
};
use crate::indexing::first_named;
use crate::record::{field_of, Record, RecordModel};
use crate::rows::{ascending, RowsModel};
use crate::text::{dec_text, push_dec, texts};
use crate::unique::{fields_on, UniqueConstraints};
use crate::value::{Value, ValueModel};
use crate::verify::records_of;

verus! {

// -- values already seen ------------------------------------------------------

/// Values, each with the first id it was seen under.
struct Seen {
    index: Index,
}

impl Seen {
    spec fn wf(&self) -> bool {
        &&& self.index.wf()
        &&& forall|k: ValueModel, a: u64, b: u64|
            #![trigger self.index@.entries.contains((k, a)), self.index@.entries.contains((k, b))]
            self.index@.entries.contains((k, a)) && self.index@.entries.contains((k, b)) ==> a == b
    }

    spec fn under(&self, k: ValueModel) -> Option<u64> {
        if exists|id: u64| self.index@.entries.contains((k, id)) {
            Some(choose|id: u64| self.index@.entries.contains((k, id)))
        } else {
            None
        }
    }

    fn new() -> (s: Seen)
        ensures
            s.wf(),
            forall|k: ValueModel| #[trigger] s.under(k) is None,
    {
        Seen { index: Index::new(Shape::Ordinary { field: "".to_owned() }, IndexKind::Hash) }
    }

    /// The id a value was first seen under, or none, in which case it is now seen
    /// under this one.
    fn note(&mut self, value: &Value, id: u64) -> (other: Option<u64>)
        requires
            old(self).wf(),
        ensures
            final(self).wf(),
            other == old(self).under(value.model()),
            other is Some ==> *final(self) == *old(self),
            other is None ==> final(self).under(value.model()) == Some(id) && forall|k: ValueModel|
                k != value.model() ==> #[trigger] final(self).under(k) == old(self).under(k),
    {
        let ghost was = self.index@.entries;
        let ghost v = value.model();
        let ids = self.index.lookup(value);
        proof {
            lemma_ids_under(was, v);
        }
        if ids.len() > 0 {
            proof {
                assert(ids@.contains(ids@[0]));
                assert(was.contains((v, ids@[0])));
                let c = self.under(v)->Some_0;
                assert(was.contains((v, c)));
            }
            return Some(ids[0]);
        }
        proof {
            assert forall|x: u64| !was.contains((v, x)) by {
                if was.contains((v, x)) {
                    assert(ids@.contains(x));
                }
            }
        }
        self.index.insert(value, id);
        proof {
            let now = self.index@.entries;
            assert forall|k: ValueModel, a: u64, b: u64|
                #![trigger now.contains((k, a)), now.contains((k, b))]
                now.contains((k, a)) && now.contains((k, b)) implies a == b by {
                assert(was.contains((k, a)) || (k, a) == (v, id));
                assert(was.contains((k, b)) || (k, b) == (v, id));
            }
            assert(now.contains((v, id)));
            let c = self.under(v)->Some_0;
            assert(now.contains((v, c)));
            assert forall|k: ValueModel| k != v implies #[trigger] self.under(k) == old(self).under(k) by {
                assert forall|x: u64| now.contains((k, x)) == was.contains((k, x)) by {}
                if exists|x: u64| was.contains((k, x)) {
                    let x = choose|x: u64| was.contains((k, x));
                    assert(now.contains((k, x)));
                    let y = choose|y: u64| now.contains((k, y));
                    assert(was.contains((k, y)));
                }
                if exists|x: u64| now.contains((k, x)) {
                    let x = choose|x: u64| now.contains((k, x));
                    assert(was.contains((k, x)));
                }
            }
        }
        None
    }
}

/// The id among the first `n` rows that first has a value in a field.
pub open spec fn first_holder(rows: RowsModel, field: Seq<char>, v: ValueModel, n: int) -> Option<
    u64,
>
    decreases n,
{
    if n <= 0 {
        None
    } else {
        match first_holder(rows, field, v, n - 1) {
            Some(id) => Some(id),
            None => if value_in(rows[n - 1].1, field) == Some(v) {
                Some(rows[n - 1].0)
            } else {
                None
            },
        }
    }
}

// -- what is refused ----------------------------------------------------------

/// Who shares a value that may not be shared.
#[derive(Clone, Copy, Debug, PartialEq, Eq, Structural)]
pub enum Sharing {
    /// A stored record.
    Stored,
    /// Two records of one batch.
    Batch { other: u64, id: u64 },
    /// Two records stored before the constraint was asked for.
    Records { other: u64, id: u64 },
}

/// A value that may not be shared, and is.
#[derive(Debug, PartialEq, Eq)]
pub struct Breach {
    pub field: String,
    pub value: Value,
    pub sharing: Sharing,
}

/// What a [`Breach`] says.
pub type BreachModel = (Seq<char>, ValueModel, Sharing);

impl View for Breach {
    type V = BreachModel;

    open spec fn view(&self) -> BreachModel {
        (self.field@, self.value.model(), self.sharing)
    }
}

/// How a shared value is reported, where `shown` is how the value is written.
pub open spec fn breach_text(s: Sharing, shown: Seq<char>) -> Seq<char> {
    match s {
        Sharing::Stored => shown,
        Sharing::Batch { other, id } => shown + " (shared within this batch by records "@
            + dec_text(other as nat) + " and "@ + dec_text(id as nat) + ")"@,
        Sharing::Records { other, id } => shown + " (already held by record "@ + dec_text(
            other as nat,
        ) + ", and by "@ + dec_text(id as nat) + ")"@,
    }
}

impl Breach {
    pub fn dup(&self) -> (b: Breach)
        ensures
            b@ == self@,
    {
        Breach { field: self.field.clone(), value: self.value.dup(), sharing: self.sharing }
    }

    /// The error a breach is refused with, given how its value is to be written.
    pub fn error(&self, collection: &str, shown: &str) -> (e: Error)
        ensures
            e@ == (ErrorModel::UniqueViolation {
                collection: collection@,
                field: self@.0,
                value: breach_text(self@.2, shown@),
            }),
    {
        let mut s = shown.to_owned();
        match self.sharing {
            Sharing::Stored => {},
            Sharing::Batch { other, id } => {
                s.append(" (shared within this batch by records ");
                push_dec(&mut s, other);
                s.append(" and ");
                push_dec(&mut s, id);
                s.append(")");
            },
            Sharing::Records { other, id } => {
                s.append(" (already held by record ");
                push_dec(&mut s, other);
                s.append(", and by ");
                push_dec(&mut s, id);
                s.append(")");
            },
        }
        Error::UniqueViolation {
            collection: collection.to_owned(),
            field: self.field.clone(),
            value: s,
        }
    }
}

/// Whether a stored row has a value of a field, under an id other than the one being
/// replaced.
pub open spec fn row_shares(
    held: RowsModel,
    field: Seq<char>,
    v: ValueModel,
    exclude: Option<u64>,
    k: int,
) -> bool {
    value_in(held[k].1, field) == Some(v) && Some(held[k].0) != exclude
}

/// Whether a value is held under an id other than the one being replaced. The field's
/// index says so, and where it has none the stored rows do: an index is a means, and
/// losing it makes no shared value legal.
pub open spec fn conflicts(
    s: Seq<IndexModel>,
    held: RowsModel,
    field: Seq<char>,
    v: ValueModel,
    exclude: Option<u64>,
) -> bool {
    match first_named(s, field) {
        Some(m) => exists|id: u64| #[trigger]
            ids_under(m.entries, v).contains(id) && Some(id) != exclude,
        None => exists|k: int|
            0 <= k < held.len() && #[trigger] row_shares(held, field, v, exclude, k),
    }
}

/// The first of the constrained fields whose value in a record is held by
/// another.
pub open spec fn stored_breach(
    s: Seq<IndexModel>,
    held: RowsModel,
    fields: Seq<Seq<char>>,
    exclude: Option<u64>,
    r: RecordModel,
) -> Option<BreachModel>
    decreases fields.len(),
{
    if fields.len() == 0 {
        None
    } else {
        match stored_breach(s, held, fields.drop_last(), exclude, r) {
            Some(b) => Some(b),
            None => match value_in(r, fields.last()) {
                Some(v) => if conflicts(s, held, fields.last(), v, exclude) {
                    Some((fields.last(), v, Sharing::Stored))
                } else {
                    None
                },
                None => None,
            },
        }
    }
}

/// The first of the constrained fields whose value in a row an earlier row of the
/// batch has.
pub open spec fn batch_clash(rows: RowsModel, fields: Seq<Seq<char>>, i: int) -> Option<BreachModel>
    decreases fields.len(),
{
    if fields.len() == 0 {
        None
    } else {
        let f = fields.last();
        match batch_clash(rows, fields.drop_last(), i) {
            Some(b) => Some(b),
            None => match value_in(rows[i].1, f) {
                Some(v) => match first_holder(rows, f, v, i) {
                    Some(other) => Some((f, v, Sharing::Batch { other, id: rows[i].0 })),
                    None => None,
                },
                None => None,
            },
        }
    }
}

/// What is wrong with the first `n` rows of a batch: each is held against what is
/// stored, and then against the rest of the batch.
pub open spec fn batch_breach(
    s: Seq<IndexModel>,
    held: RowsModel,
    fields: Seq<Seq<char>>,
    rows: RowsModel,
    n: int,
) -> Option<BreachModel>
    decreases n,
{
    if n <= 0 {
        None
    } else {
        match batch_breach(s, held, fields, rows, n - 1) {
            Some(b) => Some(b),
            None => match stored_breach(s, held, fields, None, rows[n - 1].1) {
                Some(b) => Some(b),
                None => batch_clash(rows, fields, n - 1),
            },
        }
    }
}

/// The first stored row, among the first `n`, whose value an earlier one has.
pub open spec fn scan_breach(rows: RowsModel, field: Seq<char>, n: int) -> Option<BreachModel>
    decreases n,
{
    if n <= 0 {
        None
    } else {
        match scan_breach(rows, field, n - 1) {
            Some(b) => Some(b),
            None => match value_in(rows[n - 1].1, field) {
                Some(v) => match first_holder(rows, field, v, n - 1) {
                    Some(other) => Some(
                        (field, v, Sharing::Records { other, id: rows[n - 1].0 }),
                    ),
                    None => None,
                },
                None => None,
            },
        }
    }
}

fn shares(ids: &Vec<u64>, exclude: Option<u64>) -> (r: bool)
    ensures
        r == exists|id: u64| #[trigger] ids@.contains(id) && Some(id) != exclude,
{
    let mut i: usize = 0;
    while i < ids.len()
        invariant
            i <= ids@.len(),
            forall|k: int| 0 <= k < i ==> Some(#[trigger] ids@[k]) == exclude,
        decreases ids.len() - i,
    {
        let same = match exclude {
            Some(x) => x == ids[i],
            None => false,
        };
        if !same {
            assert(ids@.contains(ids@[i as int]));
            return true;
        }
        i += 1;
    }
    assert forall|id: u64| #[trigger] ids@.contains(id) implies Some(id) == exclude by {
        let k = choose|k: int| 0 <= k < ids@.len() && ids@[k] == id;
        assert(Some(ids@[k]) == exclude);
    }
    false
}

/// The value of a field of a record, where it has one.
pub(crate) fn present(rec: &Record, field: &str) -> (r: Option<Value>)
    ensures
        match value_in(rec.model(), field@) {
            Some(m) => r matches Some(v) && v.model() == m,
            None => r is None,
        },
{
    match rec.get(field) {
        None => None,
        Some(v) => {
            if v.is_null() {
                None
            } else {
                Some(v.dup())
            }
        },
    }
}

/// The fields constrained in a collection.
pub open spec fn constrained(u: UniqueConstraints, c: Seq<char>) -> Seq<Seq<char>> {
    fields_on(u.pairs(), c)
}

/// Why a record may not be written to a collection, if it may not. A record may
/// always keep, or overwrite, its own value. `held` is what the collection holds; it
/// is asked only about a constrained field without an index.
pub fn check_unique_constraints(
    constraints: &UniqueConstraints,
    derived: &Derived,
    collection: &str,
    held: &Rows,
    exclude: Option<u64>,
    rec: &Record,
) -> (r: Option<Breach>)
    requires
        derived.wf(),
    ensures
        match stored_breach(
            derived.indexes_of(collection@),
            rows_model(held@),
            constrained(*constraints, collection@),
            exclude,
            rec.model(),
        ) {
            Some(m) => r matches Some(b) && b@ == m,
            None => r is None,
        },
{
    let fields = constraints.on(collection);
    let ghost names = constrained(*constraints, collection@);
    let ghost s = derived.indexes_of(collection@);
    let ghost h = rows_model(held@);
    let mut i: usize = 0;
    assert(names.take(0) =~= Seq::empty());
    while i < fields.len()
        invariant
            i <= fields@.len(),
            derived.wf(),
            names == fields@.map_values(|f: &str| f@),
            s == derived.indexes_of(collection@),
            h == rows_model(held@),
            stored_breach(s, h, names.take(i as int), exclude, rec.model()) is None,
            names == constrained(*constraints, collection@),
        decreases fields.len() - i,
    {
        let f: &str = fields[i];
        assert(names.take(i + 1).drop_last() =~= names.take(i as int));
        assert(names.take(i + 1).last() == f@);
        match present(rec, f) {
            None => {},
            Some(v) => {
                if has_conflict(derived, collection, held, f, &v, exclude) {
                    proof {
                        lemma_breach_stays(s, h, names, exclude, rec.model(), i + 1);
                    }
                    return Some(
                        Breach { field: f.to_owned(), value: v, sharing: Sharing::Stored },
                    );
                }
            },
        }
        i += 1;
    }
    assert(names.take(i as int) =~= names);
    None
}

proof fn lemma_breach_stays(
    s: Seq<IndexModel>,
    held: RowsModel,
    fields: Seq<Seq<char>>,
    exclude: Option<u64>,
    r: RecordModel,
    n: int,
)
    requires
        0 <= n <= fields.len(),
        stored_breach(s, held, fields.take(n), exclude, r) is Some,
    ensures
        stored_breach(s, held, fields, exclude, r) == stored_breach(s, held, fields.take(n), exclude, r),
    decreases fields.len() - n,
{
    if n < fields.len() {
        assert(fields.take(n + 1).drop_last() =~= fields.take(n));
        lemma_breach_stays(s, held, fields, exclude, r, n + 1);
    } else {
        assert(fields.take(n) =~= fields);
    }
}

/// Whether a stored row has a value, under an id other than the one being replaced.
fn shared_by_row(held: &Rows, field: &str, value: &Value, exclude: Option<u64>) -> (r: bool)
    ensures
        r == exists|k: int|
            0 <= k < held@.len() && #[trigger] row_shares(
                rows_model(held@),
                field@,
                value.model(),
                exclude,
                k,
            ),
{
    let ghost h = rows_model(held@);
    let mut i: usize = 0;
    while i < held.len()
        invariant
            i <= held@.len(),
            h == rows_model(held@),
            forall|k: int|
                0 <= k < i ==> !#[trigger] row_shares(h, field@, value.model(), exclude, k),
        decreases held@.len() - i,
    {
        assert(h[i as int] == (held@[i as int].0, held@[i as int].1.model()));
        let own = match exclude {
            Some(x) => x == held[i].0,
            None => false,
        };
        if !own {
            if let Some(v) = present(&held[i].1, field) {
                if v.same(value) {
                    assert(row_shares(h, field@, value.model(), exclude, i as int));
                    return true;
                }
            }
        }
        i += 1;
    }
    false
}

fn has_conflict(
    derived: &Derived,
    collection: &str,
    held: &Rows,
    field: &str,
    value: &Value,
    exclude: Option<u64>,
) -> (r: bool)
    requires
        derived.wf(),
    ensures
        r == conflicts(
            derived.indexes_of(collection@),
            rows_model(held@),
            field@,
            value.model(),
            exclude,
        ),
{
    match derived.first_lookup(collection, field, value) {
        Some(ids) => shares(&ids, exclude),
        None => shared_by_row(held, field, value, exclude),
    }
}

/// Why a batch may not be written to a collection, if it may not.
pub fn check_batch(
    constraints: &UniqueConstraints,
    derived: &Derived,
    collection: &str,
    held: &Rows,
    rows: &Rows,
) -> (r: Option<Breach>)
    requires
        derived.wf(),
    ensures
        match batch_breach(
            derived.indexes_of(collection@),
            rows_model(held@),
            constrained(*constraints, collection@),
            rows_model(rows@),
            rows@.len() as int,
        ) {
            Some(m) => r matches Some(b) && b@ == m,
            None => r is None,
        },
{
    let fields = constraints.on(collection);
    let ghost names = constrained(*constraints, collection@);
    let ghost s = derived.indexes_of(collection@);
    let ghost h = rows_model(held@);
    let ghost t = rows_model(rows@);
    let mut seen: Vec<Seen> = Vec::new();
    let mut k: usize = 0;
    while k < fields.len()
        invariant
            k <= fields@.len(),
            seen@.len() == k,
            forall|j: int| 0 <= j < k ==> (#[trigger] seen@[j]).wf(),
            forall|j: int, v: ValueModel|
                0 <= j < k ==> (#[trigger] seen@[j].under(v)) is None,
        decreases fields.len() - k,
    {
        seen.push(Seen::new());
        k += 1;
    }
    let mut i: usize = 0;
    while i < rows.len()
        invariant
            i <= rows@.len(),
            derived.wf(),
            names == fields@.map_values(|f: &str| f@),
            names == constrained(*constraints, collection@),
            s == derived.indexes_of(collection@),
            h == rows_model(held@),
            t == rows_model(rows@),
            seen@.len() == fields@.len(),
            forall|j: int| 0 <= j < seen@.len() ==> (#[trigger] seen@[j]).wf(),
            forall|j: int, v: ValueModel|
                0 <= j < seen@.len() ==> #[trigger] seen@[j].under(v) == first_holder(
                    t,
                    names[j],
                    v,
                    i as int,
                ),
            batch_breach(s, h, names, t, i as int) is None,
        decreases rows.len() - i,
    {
        let id: u64 = rows[i].0;
        let rec = &rows[i].1;
        assert(t[i as int] == (id, rec.model()));
        match check_unique_constraints(constraints, derived, collection, held, None, rec) {
            Some(b) => {
                proof {
                    lemma_batch_stays(s, h, names, t, i + 1);
                }
                return Some(b);
            },
            None => {},
        }
        let ghost before = seen@;
        let mut j: usize = 0;
        assert(names.take(0) =~= Seq::empty());
        while j < fields.len()
            invariant
                j <= fields@.len(),
                i < rows@.len(),
                id == rows@[i as int].0,
                *rec == rows@[i as int].1,
                names == fields@.map_values(|f: &str| f@),
                names == constrained(*constraints, collection@),
                s == derived.indexes_of(collection@),
                h == rows_model(held@),
                t == rows_model(rows@),
                t[i as int] == (id, rec.model()),
                seen@.len() == fields@.len(),
                before.len() == fields@.len(),
                batch_breach(s, h, names, t, i as int) is None,
                stored_breach(s, h, names, None, rec.model()) is None,
                batch_clash(t, names.take(j as int), i as int) is None,
                forall|q: int| 0 <= q < seen@.len() ==> (#[trigger] seen@[q]).wf(),
                forall|q: int, v: ValueModel|
                    0 <= q < seen@.len() ==> #[trigger] seen@[q].under(v) == first_holder(
                        t,
                        names[q],
                        v,
                        if q < j {
                            i + 1
                        } else {
                            i as int
                        },
                    ),
            decreases fields.len() - j,
        {
            let f: &str = fields[j];
            proof {
                assert(names.take(j + 1).drop_last() =~= names.take(j as int));
                assert(names.take(j + 1).last() == f@);
                assert(names[j as int] == f@);
            }
            let ghost old_seen = seen@;
            match present(rec, f) {
                None => {
                    proof {
                        assert forall|v: ValueModel| #[trigger] seen@[j as int].under(v)
                            == first_holder(t, f@, v, i + 1) by {
                            assert(first_holder(t, f@, v, i as int) == seen@[j as int].under(v));
                        }
                    }
                },
                Some(value) => {
                    let ghost v = value.model();
                    assert(seen@[j as int].under(v) == first_holder(t, f@, v, i as int));
                    match seen[j].note(&value, id) {
                        Some(other) => {
                            proof {
                                lemma_clash_stays(t, names, i as int, j + 1);
                                lemma_batch_stays(s, h, names, t, i + 1);
                            }
                            return Some(
                                Breach {
                                    field: f.to_owned(),
                                    value,
                                    sharing: Sharing::Batch { other, id },
                                },
                            );
                        },
                        None => {
                            proof {
                                assert forall|w: ValueModel| #[trigger] seen@[j as int].under(w)
                                    == first_holder(t, f@, w, i + 1) by {
                                    assert(old_seen[j as int].under(w) == first_holder(
                                        t,
                                        f@,
                                        w,
                                        i as int,
                                    ));
                                }
                            }
                        },
                    }
                },
            }
            proof {
                assert forall|q: int, v: ValueModel|
                    0 <= q < seen@.len() implies #[trigger] seen@[q].under(v) == first_holder(
                    t,
                    names[q],
                    v,
                    if q < j + 1 {
                        i + 1
                    } else {
                        i as int
                    },
                ) by {
                    if q != j {
                        assert(seen@[q] == old_seen[q]);
                        assert(old_seen[q].under(v) == first_holder(
                            t,
                            names[q],
                            v,
                            if q < j {
                                i + 1
                            } else {
                                i as int
                            },
                        ));
                    }
                }
            }
            j += 1;
        }
        assert(names.take(j as int) =~= names);
        i += 1;
    }
    None
}

proof fn lemma_clash_stays(rows: RowsModel, fields: Seq<Seq<char>>, i: int, n: int)
    requires
        0 <= n <= fields.len(),
        batch_clash(rows, fields.take(n), i) is Some,
    ensures
        batch_clash(rows, fields, i) == batch_clash(rows, fields.take(n), i),
    decreases fields.len() - n,
{
    if n < fields.len() {
        assert(fields.take(n + 1).drop_last() =~= fields.take(n));
        lemma_clash_stays(rows, fields, i, n + 1);
    } else {
        assert(fields.take(n) =~= fields);
    }
}

proof fn lemma_batch_stays(
    s: Seq<IndexModel>,
    held: RowsModel,
    fields: Seq<Seq<char>>,
    rows: RowsModel,
    n: int,
)
    requires
        0 <= n <= rows.len(),
        batch_breach(s, held, fields, rows, n) is Some,
    ensures
        batch_breach(s, held, fields, rows, rows.len() as int) == batch_breach(s, held, fields, rows, n),
    decreases rows.len() - n,
{
    if n < rows.len() {
        lemma_batch_stays(s, held, fields, rows, n + 1);
    }
}

/// Whether stored records already share a value of a field that is to be
/// constrained: the first that does, if any.
pub fn check_stored(rows: &Rows, field: &str) -> (r: Option<Breach>)
    ensures
        match scan_breach(rows_model(rows@), field@, rows@.len() as int) {
            Some(m) => r matches Some(b) && b@ == m,
            None => r is None,
        },
{
    let ghost t = rows_model(rows@);
    let mut seen = Seen::new();
    let mut i: usize = 0;
    while i < rows.len()
        invariant
            i <= rows@.len(),
            t == rows_model(rows@),
            seen.wf(),
            forall|v: ValueModel| #[trigger]
                seen.under(v) == first_holder(t, field@, v, i as int),
            scan_breach(t, field@, i as int) is None,
        decreases rows.len() - i,
    {
        let id: u64 = rows[i].0;
        assert(t[i as int] == (id, rows@[i as int].1.model()));
        let ghost held = seen;
        match present(&rows[i].1, field) {
            None => {
                proof {
                    assert forall|v: ValueModel| #[trigger] seen.under(v) == first_holder(
                        t,
                        field@,
                        v,
                        i + 1,
                    ) by {
                        assert(held.under(v) == first_holder(t, field@, v, i as int));
                    }
                }
            },
            Some(value) => {
                assert(seen.under(value.model()) == first_holder(
                    t,
                    field@,
                    value.model(),
                    i as int,
                ));
                match seen.note(&value, id) {
                    Some(other) => {
                        proof {
                            lemma_scan_stays(t, field@, i + 1);
                        }
                        return Some(
                            Breach {
                                field: field.to_owned(),
                                value,
                                sharing: Sharing::Records { other, id },
                            },
                        );
                    },
                    None => {
                        proof {
                            assert forall|v: ValueModel| #[trigger] seen.under(v) == first_holder(
                                t,
                                field@,
                                v,
                                i + 1,
                            ) by {
                                assert(held.under(v) == first_holder(t, field@, v, i as int));
                            }
                        }
                    },
                }
            },
        }
        i += 1;
    }
    None
}

proof fn lemma_scan_stays(rows: RowsModel, field: Seq<char>, n: int)
    requires
        0 <= n <= rows.len(),
        scan_breach(rows, field, n) is Some,
    ensures
        scan_breach(rows, field, rows.len() as int) == scan_breach(rows, field, n),
    decreases rows.len() - n,
{
    if n < rows.len() {
        lemma_scan_stays(rows, field, n + 1);
    }
}

// -- what a constraint promises -----------------------------------------------

/// Whether no two records share a value of a field.
pub open spec fn unshared(t: Records, field: Seq<char>) -> bool {
    forall|a: u64, b: u64|
        #![trigger t[a], t[b]]
        t.dom().contains(a) && t.dom().contains(b) && a != b && value_in(t[a], field) is Some
            ==> value_in(t[a], field) != value_in(t[b], field)
}

/// Whether what a field's values are judged by says what the records say: its index,
/// or, where it has none, the rows held.
pub open spec fn judged_rightly(
    s: Seq<IndexModel>,
    held: RowsModel,
    field: Seq<char>,
    keeps: Keeps,
    t: Records,
) -> bool {
    match first_named(s, field) {
        Some(m) => m.shape == (ShapeModel::Ordinary { field }) && faithful(m, keeps, t),
        None => ascending(held) && t == records_of(held),
    }
}

/// A value is in conflict exactly where another record has it.
pub proof fn lemma_conflicts(
    s: Seq<IndexModel>,
    held: RowsModel,
    field: Seq<char>,
    keeps: Keeps,
    t: Records,
    v: ValueModel,
    exclude: Option<u64>,
)
    requires
        judged_rightly(s, held, field, keeps, t),
    ensures
        conflicts(s, held, field, v, exclude) <==> exists|other: u64|
            t.dom().contains(other) && value_in(#[trigger] t[other], field) == Some(v) && Some(
                other,
            ) != exclude,
{
    match first_named(s, field) {
        Some(m) => {
            lemma_ids_under(m.entries, v);
            if conflicts(s, held, field, v, exclude) {
                let id = choose|id: u64| #[trigger]
                    ids_under(m.entries, v).contains(id) && Some(id) != exclude;
                assert(m.entries.contains((v, id)));
                assert(key_under(m.shape, keeps, t, id) == Some(v));
                assert(value_in(t[id], field) == Some(v));
            }
            if exists|other: u64|
                t.dom().contains(other) && value_in(#[trigger] t[other], field) == Some(v) && Some(
                    other,
                ) != exclude {
                let other = choose|other: u64|
                    t.dom().contains(other) && value_in(#[trigger] t[other], field) == Some(v)
                        && Some(other) != exclude;
                assert(key_under(m.shape, keeps, t, other) == Some(v));
                assert(m.entries.contains((v, other)));
                assert(ids_under(m.entries, v).contains(other));
            }
        },
        None => {
            if conflicts(s, held, field, v, exclude) {
                let k = choose|k: int|
                    0 <= k < held.len() && #[trigger] row_shares(held, field, v, exclude, k);
                let id = held[k].0;
                assert forall|j: int| 0 <= j < k implies (#[trigger] held[j]).0 != id by {
                    assert(held[j].0 < held[k].0);
                }
                lemma_find_at(held, id, k);
                assert(t.dom().contains(id) && t[id] == held[k].1);
            }
            if exists|other: u64|
                t.dom().contains(other) && value_in(#[trigger] t[other], field) == Some(v) && Some(
                    other,
                ) != exclude {
                let other = choose|other: u64|
                    t.dom().contains(other) && value_in(#[trigger] t[other], field) == Some(v)
                        && Some(other) != exclude;
                let k = lemma_find_some(held, other);
                assert(row_shares(held, field, v, exclude, k));
            }
        },
    }
}

/// A write that is not refused keeps a constrained field's values unshared, whether
/// the field has its index or has lost it.
pub proof fn an_accepted_write_keeps_values_unshared(
    s: Seq<IndexModel>,
    held: RowsModel,
    fields: Seq<Seq<char>>,
    field: Seq<char>,
    keeps: Keeps,
    t: Records,
    id: u64,
    exclude: Option<u64>,
    r: RecordModel,
)
    requires
        fields.contains(field),
        judged_rightly(s, held, field, keeps, t),
        unshared(t, field),
        exclude == Some(id) || (exclude is None && !t.dom().contains(id)),
        stored_breach(s, held, fields, exclude, r) is None,
    ensures
        unshared(t.insert(id, r), field),
{
    lemma_no_breach(s, held, fields, field, exclude, r);
    let u = t.insert(id, r);
    assert forall|a: u64, b: u64|
        #![trigger u[a], u[b]]
        u.dom().contains(a) && u.dom().contains(b) && a != b && value_in(u[a], field) is Some implies value_in(
        u[a],
        field,
    ) != value_in(u[b], field) by {
        if a != id && b != id {
            assert(u[a] == t[a] && u[b] == t[b]);
        } else {
            let other = if a == id { b } else { a };
            assert(u[other] == t[other]);
            if value_in(u[a], field) == value_in(u[b], field) {
                let v = value_in(r, field)->Some_0;
                lemma_conflicts(s, held, field, keeps, t, v, exclude);
                assert(value_in(t[other], field) == Some(v));
            }
        }
    }
}

/// Losing its index makes no shared value legal: a constrained value another record
/// has is refused, whether the field has its index or has lost it.
pub proof fn a_shared_value_is_never_legal(
    s: Seq<IndexModel>,
    held: RowsModel,
    fields: Seq<Seq<char>>,
    field: Seq<char>,
    keeps: Keeps,
    t: Records,
    other: u64,
    exclude: Option<u64>,
    r: RecordModel,
)
    requires
        fields.contains(field),
        judged_rightly(s, held, field, keeps, t),
        t.dom().contains(other),
        Some(other) != exclude,
        value_in(r, field) is Some,
        value_in(t[other], field) == value_in(r, field),
    ensures
        stored_breach(s, held, fields, exclude, r) is Some,
{
    let v = value_in(r, field)->Some_0;
    lemma_conflicts(s, held, field, keeps, t, v, exclude);
    assert(value_in(t[other], field) == Some(v));
    if stored_breach(s, held, fields, exclude, r) is None {
        lemma_no_breach(s, held, fields, field, exclude, r);
    }
}

pub proof fn lemma_no_breach(
    s: Seq<IndexModel>,
    held: RowsModel,
    fields: Seq<Seq<char>>,
    field: Seq<char>,
    exclude: Option<u64>,
    r: RecordModel,
)
    requires
        fields.contains(field),
        stored_breach(s, held, fields, exclude, r) is None,
    ensures
        value_in(r, field) matches Some(v) ==> !conflicts(s, held, field, v, exclude),
    decreases fields.len(),
{
    let rest = fields.drop_last();
    let k = choose|k: int| 0 <= k < fields.len() && fields[k] == field;
    if k < rest.len() {
        assert(rest[k] == field);
        lemma_no_breach(s, held, rest, field, exclude, r);
    }
}

proof fn lemma_first_holder_found(rows: RowsModel, field: Seq<char>, v: ValueModel, i: int, n: int)
    requires
        0 <= i < n <= rows.len(),
        value_in(rows[i].1, field) == Some(v),
    ensures
        first_holder(rows, field, v, n) is Some,
    decreases n,
{
    if i < n - 1 {
        lemma_first_holder_found(rows, field, v, i, n - 1);
    }
}

proof fn lemma_scan_clear(rows: RowsModel, field: Seq<char>, n: int, i: int, j: int)
    requires
        0 <= i < j < n <= rows.len(),
        scan_breach(rows, field, n) is None,
        value_in(rows[i].1, field) is Some,
    ensures
        value_in(rows[i].1, field) != value_in(rows[j].1, field),
    decreases n,
{
    if j < n - 1 {
        lemma_scan_clear(rows, field, n - 1, i, j);
    } else if value_in(rows[i].1, field) == value_in(rows[j].1, field) {
        let v = value_in(rows[i].1, field)->Some_0;
        lemma_first_holder_found(rows, field, v, i, n - 1);
    }
}

/// A constraint is put only on a field whose values no two stored records share.
pub proof fn a_constraint_holds_from_the_start(rows: RowsModel, field: Seq<char>)
    requires
        ascending(rows),
        scan_breach(rows, field, rows.len() as int) is None,
    ensures
        unshared(records_of(rows), field),
{
    let t = records_of(rows);
    assert forall|a: u64, b: u64|
        #![trigger t[a], t[b]]
        t.dom().contains(a) && t.dom().contains(b) && a != b && value_in(t[a], field) is Some implies value_in(
        t[a],
        field,
    ) != value_in(t[b], field) by {
        let i = lemma_find_some(rows, a);
        let j = lemma_find_some(rows, b);
        if i < j {
            lemma_scan_clear(rows, field, rows.len() as int, i, j);
        } else if value_in(t[b], field) is Some {
            lemma_scan_clear(rows, field, rows.len() as int, j, i);
        }
    }
}

/// The fields of a list that no index goes by the name of.
pub open spec fn unguarded(s: Seq<IndexModel>, fields: Seq<Seq<char>>) -> Seq<Seq<char>>
    decreases fields.len(),
{
    if fields.len() == 0 {
        Seq::empty()
    } else if first_named(s, fields.last()) is None {
        unguarded(s, fields.drop_last()).push(fields.last())
    } else {
        unguarded(s, fields.drop_last())
    }
}

/// The constrained fields of a collection that have lost the index their constraint
/// rests on. Until they have one again, a write is judged by the rows the collection
/// holds.
pub fn unguarded_fields(constraints: &UniqueConstraints, derived: &Derived, collection: &str) -> (out:
    Vec<String>)
    requires
        derived.wf(),
    ensures
        texts(out@) == unguarded(
            derived.indexes_of(collection@),
            constrained(*constraints, collection@),
        ),
{
    let fields = constraints.on(collection);
    let ghost names = constrained(*constraints, collection@);
    let ghost s = derived.indexes_of(collection@);
    let mut out: Vec<String> = Vec::new();
    let mut i: usize = 0;
    assert(names.take(0) =~= Seq::empty());
    assert(texts(out@) =~= Seq::empty());
    while i < fields.len()
        invariant
            i <= fields@.len(),
            derived.wf(),
            names == constrained(*constraints, collection@),
            fields@.map_values(|f: &str| f@) == names,
            names.len() == fields@.len(),
            s == derived.indexes_of(collection@),
            texts(out@) == unguarded(s, names.take(i as int)),
        decreases fields@.len() - i,
    {
        let ghost held = out@;
        assert(fields@.map_values(|f: &str| f@)[i as int] == fields@[i as int]@);
        assert(names.take(i + 1).drop_last() =~= names.take(i as int));
        assert(names.take(i + 1).last() == fields@[i as int]@);
        if !derived.has_index(collection, fields[i]) {
            out.push(fields[i].to_owned());
            assert(texts(out@) =~= texts(held).push(fields@[i as int]@));
        }
        i += 1;
    }
    assert(names.take(i as int) =~= names);
    out
}

/// Where no constrained field is unguarded, each has an index.
pub proof fn a_guarded_field_has_an_index(
    s: Seq<IndexModel>,
    fields: Seq<Seq<char>>,
    field: Seq<char>,
)
    requires
        fields.contains(field),
        unguarded(s, fields).len() == 0,
    ensures
        first_named(s, field) is Some,
    decreases fields.len(),
{
    let k = choose|k: int| 0 <= k < fields.len() && fields[k] == field;
    if k < fields.len() - 1 {
        assert(fields.drop_last()[k] == field);
        a_guarded_field_has_an_index(s, fields.drop_last(), field);
    }
}

// -- what is refused, and nothing else -------------------------------------------

/// Whether two records have the same value under a name. Null is no value.
pub open spec fn share_a_value(a: RecordModel, b: RecordModel, field: Seq<char>) -> bool {
    field_of(a, field) matches Some(v) && !(v is Null) && field_of(b, field) == Some(v)
}

/// Whether a record other than the one being replaced shares a value with this one.
pub open spec fn shared_with_another(
    t: Records,
    field: Seq<char>,
    exclude: Option<u64>,
    r: RecordModel,
) -> bool {
    exists|other: u64|
        t.dom().contains(other) && share_a_value(r, #[trigger] t[other], field) && Some(other)
            != exclude
}

/// A write is refused exactly where a constrained value of its record is another's: a
/// record may keep or overwrite its own, values under fields that are not constrained may
/// be shared, and so may a null. What is told is the first such field and the value.
pub proof fn a_write_is_refused_for_a_shared_value_and_nothing_else(
    s: Seq<IndexModel>,
    held: RowsModel,
    fields: Seq<Seq<char>>,
    keeps: Keeps,
    t: Records,
    exclude: Option<u64>,
    r: RecordModel,
)
    requires
        forall|k: int| 0 <= k < fields.len() ==> judged_rightly(s, held, #[trigger] fields[k], keeps, t),
    ensures
        match stored_breach(s, held, fields, exclude, r) {
            None => forall|k: int|
                0 <= k < fields.len() ==> !shared_with_another(t, #[trigger] fields[k], exclude, r),
            Some((field, v, sharing)) => {
                &&& sharing is Stored
                &&& field_of(r, field) == Some(v)
                &&& exists|k: int|
                    0 <= k < fields.len() && #[trigger] fields[k] == field && shared_with_another(
                        t,
                        field,
                        exclude,
                        r,
                    ) && (forall|j: int|
                        0 <= j < k ==> !shared_with_another(t, #[trigger] fields[j], exclude, r))
            },
        },
    decreases fields.len(),
{
    if fields.len() > 0 {
        let rest = fields.drop_last();
        let last = fields.last();
        assert forall|k: int| 0 <= k < rest.len() implies judged_rightly(
            s,
            held,
            #[trigger] rest[k],
            keeps,
            t,
        ) by {
            assert(rest[k] == fields[k]);
        }
        a_write_is_refused_for_a_shared_value_and_nothing_else(s, held, rest, keeps, t, exclude, r);
        match stored_breach(s, held, rest, exclude, r) {
            Some((field, v, sharing)) => {
                let k = choose|k: int|
                    0 <= k < rest.len() && #[trigger] rest[k] == field && (forall|j: int|
                        0 <= j < k ==> !shared_with_another(t, #[trigger] rest[j], exclude, r));
                assert(fields[k] == field);
                assert forall|j: int| 0 <= j < k implies !shared_with_another(
                    t,
                    #[trigger] fields[j],
                    exclude,
                    r,
                ) by {
                    assert(rest[j] == fields[j]);
                }
            },
            None => {
                assert forall|j: int| 0 <= j < rest.len() implies !shared_with_another(
                    t,
                    #[trigger] fields[j],
                    exclude,
                    r,
                ) by {
                    assert(rest[j] == fields[j]);
                }
                let n = fields.len() - 1;
                assert(judged_rightly(s, held, fields[n], keeps, t));
                if let Some(v) = value_in(r, last) {
                    lemma_conflicts(s, held, last, keeps, t, v, exclude);
                    if conflicts(s, held, last, v, exclude) {
                        let other = choose|other: u64|
                            t.dom().contains(other) && value_in(#[trigger] t[other], last) == Some(v)
                                && Some(other) != exclude;
                        assert(share_a_value(r, t[other], last));
                    } else if shared_with_another(t, last, exclude, r) {
                        let other = choose|other: u64|
                            t.dom().contains(other) && share_a_value(r, #[trigger] t[other], last)
                                && Some(other) != exclude;
                        assert(value_in(t[other], last) == Some(v));
                    }
                }
            },
        }
    }
}

proof fn lemma_first_holder(rows: RowsModel, field: Seq<char>, v: ValueModel, n: int)
    requires
        0 <= n <= rows.len(),
    ensures
        match first_holder(rows, field, v, n) {
            Some(id) => exists|i: int|
                0 <= i < n && (#[trigger] rows[i]).0 == id && value_in(rows[i].1, field) == Some(v)
                    && (forall|k: int|
                    0 <= k < i ==> value_in((#[trigger] rows[k]).1, field) != Some(v)),
            None => forall|k: int| 0 <= k < n ==> value_in((#[trigger] rows[k]).1, field) != Some(v),
        },
    decreases n,
{
    if n > 0 {
        lemma_first_holder(rows, field, v, n - 1);
        if first_holder(rows, field, v, n - 1) is None && value_in(rows[n - 1].1, field) == Some(v) {
            assert(rows[n - 1].0 == first_holder(rows, field, v, n)->Some_0);
        }
    }
}

/// A field may be constrained exactly where no two stored records share a value of it.
/// What is told where two do is the first record that has another's value, the value, and
/// the first that has it.
pub proof fn a_constraint_is_refused_only_where_a_value_is_shared(
    rows: RowsModel,
    field: Seq<char>,
    n: int,
)
    requires
        0 <= n <= rows.len(),
    ensures
        match scan_breach(rows, field, n) {
            None => forall|i: int, j: int|
                #![trigger rows[i], rows[j]]
                0 <= i < j < n ==> !share_a_value(rows[i].1, rows[j].1, field),
            Some((f, v, sharing)) => {
                &&& f == field
                &&& sharing matches Sharing::Records { other, id } && exists|i: int, j: int|
                    #![trigger rows[i], rows[j]]
                    0 <= i < j < n && rows[i].0 == other && rows[j].0 == id && share_a_value(
                        rows[i].1,
                        rows[j].1,
                        field,
                    ) && field_of(rows[j].1, field) == Some(v)
            },
        },
    decreases n,
{
    if n > 0 {
        a_constraint_is_refused_only_where_a_value_is_shared(rows, field, n - 1);
        if scan_breach(rows, field, n - 1) is None {
            if let Some(v) = value_in(rows[n - 1].1, field) {
                lemma_first_holder(rows, field, v, n - 1);
                if let Some(other) = first_holder(rows, field, v, n - 1) {
                    let i = choose|i: int|
                        0 <= i < n - 1 && (#[trigger] rows[i]).0 == other && value_in(
                            rows[i].1,
                            field,
                        ) == Some(v);
                    assert(share_a_value(rows[i].1, rows[n - 1].1, field));
                }
            }
            if scan_breach(rows, field, n) is None {
                assert forall|i: int, j: int|
                    #![trigger rows[i], rows[j]]
                    0 <= i < j < n implies !share_a_value(rows[i].1, rows[j].1, field) by {
                    if j == n - 1 && share_a_value(rows[i].1, rows[j].1, field) {
                        assert(value_in(rows[i].1, field) == value_in(rows[j].1, field));
                    }
                }
            }
        } else {
            let (f, v, sharing) = scan_breach(rows, field, n - 1)->Some_0;
            let (other, id) = (sharing->Records_other, sharing->Records_id);
            let (i, j) = choose|i: int, j: int|
                #![trigger rows[i], rows[j]]
                0 <= i < j < n - 1 && rows[i].0 == other && rows[j].0 == id && share_a_value(
                    rows[i].1,
                    rows[j].1,
                    field,
                ) && field_of(rows[j].1, field) == Some(v);
            assert(rows[i].0 == other && rows[j].0 == id);
        }
    }
}

proof fn lemma_batch_clash(rows: RowsModel, fields: Seq<Seq<char>>, i: int)
    requires
        0 <= i < rows.len(),
    ensures
        match batch_clash(rows, fields, i) {
            None => forall|k: int, j: int|
                #![trigger fields[k], rows[j]]
                0 <= k < fields.len() && 0 <= j < i ==> !share_a_value(
                    rows[j].1,
                    rows[i].1,
                    fields[k],
                ),
            Some((f, v, sharing)) => fields.contains(f) && field_of(rows[i].1, f) == Some(v) && (
            sharing matches Sharing::Batch { other, id } && id == rows[i].0 && exists|j: int|
                0 <= j < i && (#[trigger] rows[j]).0 == other && share_a_value(
                    rows[j].1,
                    rows[i].1,
                    f,
                )),
        },
    decreases fields.len(),
{
    if fields.len() > 0 {
        let rest = fields.drop_last();
        let f = fields.last();
        let n = fields.len() - 1;
        lemma_batch_clash(rows, rest, i);
        assert(fields[n] == f);
        match batch_clash(rows, rest, i) {
            Some((g, v, sharing)) => {
                let k = choose|k: int| 0 <= k < rest.len() && rest[k] == g;
                assert(fields[k] == g);
            },
            None => {
                if let Some(v) = value_in(rows[i].1, f) {
                    lemma_first_holder(rows, f, v, i);
                    if let Some(other) = first_holder(rows, f, v, i) {
                        let j = choose|j: int|
                            0 <= j < i && (#[trigger] rows[j]).0 == other && value_in(rows[j].1, f)
                                == Some(v);
                        assert(share_a_value(rows[j].1, rows[i].1, f));
                    }
                }
                if batch_clash(rows, fields, i) is None {
                    assert forall|k: int, j: int|
                        #![trigger fields[k], rows[j]]
                        0 <= k < fields.len() && 0 <= j < i implies !share_a_value(
                        rows[j].1,
                        rows[i].1,
                        fields[k],
                    ) by {
                        if k < n {
                            assert(rest[k] == fields[k]);
                        } else if share_a_value(rows[j].1, rows[i].1, f) {
                            assert(value_in(rows[j].1, f) == value_in(rows[i].1, f));
                        }
                    }
                }
            },
        }
    }
}

/// A batch is refused exactly where a record of it could not be written alone or shares a
/// constrained value with a record before it in the batch.
pub proof fn a_batch_is_refused_for_a_shared_value_and_nothing_else(
    s: Seq<IndexModel>,
    held: RowsModel,
    fields: Seq<Seq<char>>,
    keeps: Keeps,
    t: Records,
    rows: RowsModel,
    n: int,
)
    requires
        0 <= n <= rows.len(),
        forall|k: int| 0 <= k < fields.len() ==> judged_rightly(s, held, #[trigger] fields[k], keeps, t),
    ensures
        match batch_breach(s, held, fields, rows, n) {
            None => {
                &&& forall|i: int, k: int|
                    #![trigger rows[i], fields[k]]
                    0 <= i < n && 0 <= k < fields.len() ==> !shared_with_another(
                        t,
                        fields[k],
                        None,
                        rows[i].1,
                    )
                &&& forall|i: int, j: int, k: int|
                    #![trigger rows[i], rows[j], fields[k]]
                    0 <= i < j < n && 0 <= k < fields.len() ==> !share_a_value(
                        rows[i].1,
                        rows[j].1,
                        fields[k],
                    )
            },
            Some((f, v, sharing)) => fields.contains(f) && exists|j: int|
                #![trigger rows[j]]
                0 <= j < n && field_of(rows[j].1, f) == Some(v) && match sharing {
                    Sharing::Stored => shared_with_another(t, f, None, rows[j].1),
                    Sharing::Batch { other, id } => id == rows[j].0 && exists|i: int|
                        0 <= i < j && (#[trigger] rows[i]).0 == other && share_a_value(
                            rows[i].1,
                            rows[j].1,
                            f,
                        ),
                    Sharing::Records { .. } => false,
                },
        },
    decreases n,
{
    if n > 0 {
        a_batch_is_refused_for_a_shared_value_and_nothing_else(s, held, fields, keeps, t, rows, n - 1);
        let r = rows[n - 1].1;
        a_write_is_refused_for_a_shared_value_and_nothing_else(s, held, fields, keeps, t, None, r);
        lemma_batch_clash(rows, fields, n - 1);
        match batch_breach(s, held, fields, rows, n - 1) {
            Some((f, v, sharing)) => {
                let j = choose|j: int|
                    #![trigger rows[j]]
                    0 <= j < n - 1 && field_of(rows[j].1, f) == Some(v) && match sharing {
                        Sharing::Stored => shared_with_another(t, f, None, rows[j].1),
                        Sharing::Batch { other, id } => id == rows[j].0 && exists|i: int|
                            0 <= i < j && (#[trigger] rows[i]).0 == other && share_a_value(
                                rows[i].1,
                                rows[j].1,
                                f,
                            ),
                        Sharing::Records { .. } => false,
                    };
                assert(rows[j] == rows[j]);
            },
            None => {
                match stored_breach(s, held, fields, None, r) {
                    Some((f, v, sharing)) => {
                        let k = choose|k: int|
                            0 <= k < fields.len() && #[trigger] fields[k] == f && shared_with_another(
                                t,
                                f,
                                None,
                                r,
                            );
                        assert(fields.contains(f));
                        assert(rows[n - 1].1 == r);
                    },
                    None => {
                        if let Some((f, v, sharing)) = batch_clash(rows, fields, n - 1) {
                            assert(rows[n - 1].1 == r);
                        }
                    },
                }
            },
        }
    }
}

/// The fields without a guard are exactly the constrained ones that no index goes by the
/// name of.
pub proof fn unguarded_fields_have_no_index(
    s: Seq<IndexModel>,
    fields: Seq<Seq<char>>,
    field: Seq<char>,
)
    ensures
        unguarded(s, fields).contains(field) <==> fields.contains(field) && forall|i: int|
            0 <= i < s.len() ==> crate::index::shape_name((#[trigger] s[i]).shape) != field,
    decreases fields.len(),
{
    lemma_named_or_not(s, field);
    if fields.len() > 0 {
        let rest = fields.drop_last();
        let last = fields.last();
        unguarded_fields_have_no_index(s, rest, field);
        lemma_named_or_not(s, last);
        let before = unguarded(s, rest);
        assert(fields.contains(field) <==> rest.contains(field) || last == field) by {
            if fields.contains(field) {
                let i = choose|i: int| 0 <= i < fields.len() && fields[i] == field;
                if i < rest.len() {
                    assert(rest[i] == field);
                }
            }
            if rest.contains(field) {
                let i = choose|i: int| 0 <= i < rest.len() && rest[i] == field;
                assert(fields[i] == field);
            }
            assert(fields[fields.len() - 1] == last);
        }
        if first_named(s, last) is None {
            let now = before.push(last);
            assert(now[before.len() as int] == last);
            if before.contains(field) {
                let i = choose|i: int| 0 <= i < before.len() && before[i] == field;
                assert(now[i] == field);
            }
            if now.contains(field) {
                let i = choose|i: int| 0 <= i < now.len() && now[i] == field;
                if i < before.len() {
                    assert(before[i] == field);
                }
            }
        }
    }
}

proof fn lemma_named_or_not(s: Seq<IndexModel>, name: Seq<char>)
    ensures
        first_named(s, name) is None <==> forall|i: int|
            0 <= i < s.len() ==> crate::index::shape_name((#[trigger] s[i]).shape) != name,
    decreases s.len(),
{
    if s.len() > 0 {
        let rest = s.drop_first();
        lemma_named_or_not(rest, name);
        assert forall|k: int| 0 < k < s.len() implies #[trigger] s[k] == rest[k - 1] by {}
        assert forall|k: int| 0 <= k < rest.len() implies #[trigger] rest[k] == s[k + 1] by {}
    }
}

} // verus!
