//! Committing: every write of a transaction is judged before the first is applied.
//!
//! A write may be refused for a conflict, by a schema, by a stored record that has a
//! value it may not share, or by another write of the same transaction that has one.
//! A transaction none of whose writes is refused is applied in order, and none of its
//! writes is refused then either.

use vstd::prelude::*;
use crate::caches::{rows_model, Rows};
use crate::constraints::{
    a_write_is_refused_for_a_shared_value_and_nothing_else, conflicts, constrained, judged_rightly,
    lemma_conflicts, lemma_no_breach, present, share_a_value, shared_with_another, stored_breach,
    unshared, Breach, BreachModel, Sharing,
};
use crate::database::Database;
use crate::derived::Derived;
use crate::error::{Error, ErrorModel};
use crate::index::{value_in, IndexModel, Keeps, Records};
use crate::record::{Record, RecordModel};
use crate::rows::RowsModel;
use crate::schema::{accepts, Schema};
use crate::strmap::StrMap;
use crate::text::{dec_text, push_dec, str_eq};
use crate::transaction::{
    a_transaction_is_applied_where_nothing_stands_against_it, judged, standing_models, write_fault,
    writes_itself, LastWrite, Left, Standing, StandingModel, Transaction, Unfit, UnfitModel, Writes,
};
use crate::unique::{listed_fields_are_the_constrained_ones, UniqueConstraints};
use crate::value::{Value, ValueModel};

verus! {

/// What the writes leave, each as it will be stored.
pub open spec fn stored_models(s: Seq<Option<Record>>) -> Seq<Left> {
    s.map_values(
        |r: Option<Record>|
            match r {
                Some(rec) => Some(rec.model()),
                None => None,
            },
    )
}

/// Whether there is a stored form of exactly the writes that put a record.
pub open spec fn stands_for(stored: Seq<Left>, w: Writes) -> bool {
    &&& stored.len() == w.len()
    &&& forall|i: int| 0 <= i < w.len() ==> ((#[trigger] stored[i]) is Some <==> w[i].1 is Some)
}

/// What a collection holds, of what is said of some.
pub open spec fn held_in(held: StrMap<Rows>, c: Seq<char>) -> RowsModel {
    match held.of(c) {
        Some(rows) => rows_model(rows@),
        None => Seq::empty(),
    }
}

/// What a record that does not fit its collection's schema is refused with.
pub open spec fn unfit_text(c: Seq<char>, id: u64) -> Seq<char> {
    "record "@ + dec_text(id as nat) + " does not fit the schema of "@ + c
}

/// Why a collection will not have a record, if it will not: there is no such collection,
/// or its schema does not accept the record.
pub open spec fn schema_fault(schemas: StrMap<Schema>, c: Seq<char>, id: u64, r: RecordModel)
    -> Option<ErrorModel> {
    match schemas.of(c) {
        None => Some(ErrorModel::NoSuchCollection(c)),
        Some(s) => if accepts(s@, r) {
            None
        } else {
            Some(ErrorModel::InvalidSchema(unfit_text(c, id)))
        },
    }
}

fn check_schema(schemas: &StrMap<Schema>, collection: &str, id: u64, rec: &Record) -> (r: Option<
    Error,
>)
    requires
        schemas.wf(),
    ensures
        match schema_fault(*schemas, collection@, id, rec.model()) {
            Some(m) => r matches Some(e) && e@ == m,
            None => r is None,
        },
{
    match schemas.get(collection) {
        None => Some(Error::NoSuchCollection(collection.to_owned())),
        Some(s) => {
            if s.validate_record(rec) {
                return None;
            }
            let mut t = "record ".to_owned();
            push_dec(&mut t, id);
            t.append(" does not fit the schema of ");
            t.append(collection);
            Some(Error::InvalidSchema(t))
        },
    }
}

/// Where the `i`-th write stands: as its collection's schema says of what it puts, or,
/// where that does not refuse it, as the constraints say.
pub open spec fn stands(
    d: Derived,
    u: UniqueConstraints,
    held: StrMap<Rows>,
    w: Writes,
    stored: Seq<Left>,
    schemas: StrMap<Schema>,
    latest: Seq<Option<u64>>,
    i: int,
) -> StandingModel {
    let c = w[i].0.0;
    StandingModel {
        latest: latest[i],
        refused: match stored[i] {
            None => None,
            Some(r) => match schema_fault(schemas, c, w[i].0.1, r) {
                Some(e) => Some(UnfitModel::Failed(e)),
                None => match stored_breach(
                    d.indexes_of(c),
                    held_in(held, c),
                    constrained(u, c),
                    Some(w[i].0.1),
                    r,
                ) {
                    Some(b) => Some(UnfitModel::Shared(c, b)),
                    None => None,
                },
            },
        },
    }
}

/// Where every write stands.
pub open spec fn all_stand(
    d: Derived,
    u: UniqueConstraints,
    held: StrMap<Rows>,
    w: Writes,
    stored: Seq<Left>,
    schemas: StrMap<Schema>,
    latest: Seq<Option<u64>>,
) -> Seq<StandingModel> {
    Seq::new(w.len(), |i: int| stands(d, u, held, w, stored, schemas, latest, i))
}

/// Whether the `j`-th write puts a record of a collection with a value in a field.
pub open spec fn puts_value(
    w: Writes,
    stored: Seq<Left>,
    c: Seq<char>,
    field: Seq<char>,
    v: ValueModel,
    j: int,
) -> bool {
    w[j].0.0 == c && stored[j] is Some && value_in(stored[j]->Some_0, field) == Some(v)
}

/// Whether one of the first `n` writes puts a record with a value in a field.
pub open spec fn put_before(
    w: Writes,
    stored: Seq<Left>,
    c: Seq<char>,
    field: Seq<char>,
    v: ValueModel,
    n: int,
) -> bool {
    exists|j: int| 0 <= j < n && #[trigger] puts_value(w, stored, c, field, v, j)
}

/// The first of some fields whose value in the `i`-th write an earlier write has.
pub open spec fn put_twice(w: Writes, stored: Seq<Left>, fields: Seq<Seq<char>>, i: int) -> Option<
    BreachModel,
>
    decreases fields.len(),
{
    if fields.len() == 0 {
        None
    } else {
        match put_twice(w, stored, fields.drop_last(), i) {
            Some(b) => Some(b),
            None => match stored[i] {
                Some(r) => match value_in(r, fields.last()) {
                    Some(v) => if put_before(w, stored, w[i].0.0, fields.last(), v, i) {
                        Some((fields.last(), v, Sharing::Stored))
                    } else {
                        None
                    },
                    None => None,
                },
                None => None,
            },
        }
    }
}

/// The first write, from the `i`-th on, that an earlier one would be in the way of.
pub open spec fn in_the_way(u: UniqueConstraints, w: Writes, stored: Seq<Left>, i: int) -> Option<
    UnfitModel,
>
    decreases w.len() - i,
{
    if i < 0 || i >= w.len() {
        None
    } else {
        match put_twice(w, stored, constrained(u, w[i].0.0), i) {
            Some(b) => Some(UnfitModel::Shared(w[i].0.0, b)),
            None => in_the_way(u, w, stored, i + 1),
        }
    }
}

/// Why a transaction may not be applied, if it may not. Its writes are held against
/// each other once nothing else is wrong with them.
pub open spec fn commit_fault(
    d: Derived,
    u: UniqueConstraints,
    held: StrMap<Rows>,
    t: Transaction,
    stored: Seq<Left>,
    schemas: StrMap<Schema>,
    latest: Seq<Option<u64>>,
    rows: Seq<Option<u64>>,
    scans: Seq<Option<LastWrite>>,
    strict: bool,
) -> Option<UnfitModel> {
    let w = t.pending();
    let full = all_stand(d, u, held, w, stored, schemas, latest);
    match judged(w, t.observed(), t.scanned(), t.taken_at(), full, rows, scans, strict) {
        Some(e) => Some(e),
        None => in_the_way(u, w, stored, 0),
    }
}

/// Whether one of the first `n` writes puts a record with a value in a field.
fn is_put_before(
    txn: &Transaction,
    stored: &Vec<Option<Record>>,
    collection: &str,
    field: &str,
    value: &Value,
    n: usize,
) -> (r: bool)
    requires
        stored@.len() == txn.pending().len(),
        n <= stored@.len(),
    ensures
        r == put_before(
            txn.pending(),
            stored_models(stored@),
            collection@,
            field@,
            value.model(),
            n as int,
        ),
{
    let ghost w = txn.pending();
    let ghost t = stored_models(stored@);
    let mut j: usize = 0;
    while j < n
        invariant
            j <= n <= stored@.len(),
            w == txn.pending(),
            t == stored_models(stored@),
            stored@.len() == w.len(),
            forall|k: int|
                0 <= k < j ==> !#[trigger] puts_value(w, t, collection@, field@, value.model(), k),
        decreases n - j,
    {
        let (c, _id, _write) = txn.write_at(j);
        assert(t.len() == stored@.len());
        if str_eq(c, collection) {
            match &stored[j] {
                Some(rec) => {
                    match present(rec, field) {
                        Some(v) => {
                            if v.same(value) {
                                assert(puts_value(
                                    w,
                                    t,
                                    collection@,
                                    field@,
                                    value.model(),
                                    j as int,
                                ));
                                return true;
                            }
                        },
                        None => {},
                    }
                },
                None => {},
            }
        }
        j += 1;
    }
    false
}

/// The first of the constrained fields whose value in a write an earlier write has.
fn find_put_twice(
    constraints: &UniqueConstraints,
    txn: &Transaction,
    stored: &Vec<Option<Record>>,
    collection: &str,
    i: usize,
) -> (r: Option<Breach>)
    requires
        stored@.len() == txn.pending().len(),
        i < stored@.len(),
        collection@ == txn.pending()[i as int].0.0,
    ensures
        match put_twice(
            txn.pending(),
            stored_models(stored@),
            constrained(*constraints, collection@),
            i as int,
        ) {
            Some(m) => r matches Some(b) && b@ == m,
            None => r is None,
        },
{
    let ghost w = txn.pending();
    let ghost t = stored_models(stored@);
    let fields = constraints.on(collection);
    let ghost names = constrained(*constraints, collection@);
    let mut k: usize = 0;
    assert(names.take(0) =~= Seq::empty());
    while k < fields.len()
        invariant
            k <= fields@.len(),
            i < stored@.len(),
            w == txn.pending(),
            t == stored_models(stored@),
            stored@.len() == w.len(),
            collection@ == w[i as int].0.0,
            names == fields@.map_values(|f: &str| f@),
            names == constrained(*constraints, collection@),
            put_twice(w, t, names.take(k as int), i as int) is None,
        decreases fields.len() - k,
    {
        let f: &str = fields[k];
        assert(names.take(k + 1).drop_last() =~= names.take(k as int));
        assert(names.take(k + 1).last() == f@);
        match &stored[i] {
            None => {},
            Some(rec) => {
                match present(rec, f) {
                    None => {},
                    Some(v) => {
                        if is_put_before(txn, stored, collection, f, &v, i) {
                            proof {
                                lemma_twice_stays(w, t, names, i as int, k + 1);
                            }
                            return Some(
                                Breach { field: f.to_owned(), value: v, sharing: Sharing::Stored },
                            );
                        }
                    },
                }
            },
        }
        k += 1;
    }
    assert(names.take(k as int) =~= names);
    None
}

proof fn lemma_twice_stays(w: Writes, stored: Seq<Left>, fields: Seq<Seq<char>>, i: int, n: int)
    requires
        0 <= n <= fields.len(),
        put_twice(w, stored, fields.take(n), i) is Some,
    ensures
        put_twice(w, stored, fields, i) == put_twice(w, stored, fields.take(n), i),
    decreases fields.len() - n,
{
    if n < fields.len() {
        assert(fields.take(n + 1).drop_last() =~= fields.take(n));
        lemma_twice_stays(w, stored, fields, i, n + 1);
    } else {
        assert(fields.take(n) =~= fields);
    }
}

impl Database {
    /// Whether a transaction may be applied, all of it or nothing: where it may, its
    /// writes are applied in order as any update or delete is. `schemas` has the schema of
    /// every collection there is, `held` what collections with a constrained field that has
    /// lost its index hold, `stored` each record that is put as it will be stored, `latest`
    /// when each key was last written, `rows` when each row that was read was, and `scans`
    /// what was written last in each collection that was scanned.
    pub fn commit(
        &self,
        txn: &Transaction,
        schemas: &StrMap<Schema>,
        held: &StrMap<Rows>,
        stored: &Vec<Option<Record>>,
        latest: &Vec<Option<u64>>,
        rows: &Vec<Option<u64>>,
        scans: &Vec<Option<LastWrite>>,
        strict: bool,
    ) -> (r: Result<(), Unfit>)
        requires
            self.wf(),
            schemas.wf(),
            held.wf(),
            txn.wf(),
            stands_for(stored_models(stored@), txn.pending()),
            latest@.len() == txn.pending().len(),
            rows@.len() == txn.observed().len(),
            scans@.len() == txn.scanned().len(),
        ensures
            match commit_fault(
                self.derived,
                self.unique_constraints,
                *held,
                *txn,
                stored_models(stored@),
                *schemas,
                latest@,
                rows@,
                scans@,
                strict,
            ) {
                None => r is Ok,
                Some(fault) => r matches Err(e) && e@ == fault,
            },
    {
        let ghost w = txn.pending();
        let ghost t = stored_models(stored@);
        let ghost full = all_stand(
            self.derived,
            self.unique_constraints,
            *held,
            w,
            t,
            *schemas,
            latest@,
        );
        let n: usize = txn.write_count();
        let mut standing: Vec<Standing> = Vec::new();
        let none: Rows = Vec::new();
        assert(rows_model(none@) =~= RowsModel::empty());
        let mut i: usize = 0;
        while i < n
            invariant
                i <= n,
                n == w.len(),
                self.wf(),
                schemas.wf(),
                held.wf(),
                rows_model(none@) == RowsModel::empty(),
                w == txn.pending(),
                t == stored_models(stored@),
                t.len() == w.len(),
                latest@.len() == w.len(),
                full == all_stand(
                    self.derived,
                    self.unique_constraints,
                    *held,
                    w,
                    t,
                    *schemas,
                    latest@,
                ),
                standing@.len() == i,
                forall|k: int| 0 <= k < i ==> (#[trigger] standing@[k])@ == full[k],
            decreases n - i,
        {
            let (collection, id, _write) = txn.write_at(i);
            let rows = match held.get(collection) {
                Some(rows) => rows,
                None => &none,
            };
            let refused = match &stored[i] {
                None => None,
                Some(rec) => match check_schema(schemas, collection, id, rec) {
                    Some(e) => Some(Unfit::Failed(e)),
                    None => match self.prepare_update(collection, rows, id, rec) {
                        None => None,
                        Some(breach) => Some(
                            Unfit::Shared { collection: collection.to_owned(), breach },
                        ),
                    },
                },
            };
            standing.push(Standing { latest: latest[i], refused });
            i += 1;
        }
        assert(standing_models(standing@) =~= full);
        match txn.judge(&standing, rows, scans, strict) {
            Err(e) => {
                return Err(e);
            },
            Ok(()) => {},
        }
        let mut j: usize = 0;
        while j < n
            invariant
                j <= n,
                n == w.len(),
                w == txn.pending(),
                t == stored_models(stored@),
                t.len() == w.len(),
                judged(
                    w,
                    txn.observed(),
                    txn.scanned(),
                    txn.taken_at(),
                    full,
                    rows@,
                    scans@,
                    strict,
                ) is None,
                full == all_stand(
                    self.derived,
                    self.unique_constraints,
                    *held,
                    w,
                    t,
                    *schemas,
                    latest@,
                ),
                in_the_way(self.unique_constraints, w, t, 0) == in_the_way(
                    self.unique_constraints,
                    w,
                    t,
                    j as int,
                ),
            decreases n - j,
        {
            let (collection, _id, _write) = txn.write_at(j);
            match find_put_twice(&self.unique_constraints, txn, stored, collection, j) {
                Some(breach) => {
                    return Err(Unfit::Shared { collection: collection.to_owned(), breach });
                },
                None => {},
            }
            j += 1;
        }
        Ok(())
    }
}

// -- all of it or nothing ------------------------------------------------------

/// The records of a collection once the first `n` writes are applied.
pub open spec fn applied(t: Records, c: Seq<char>, w: Writes, stored: Seq<Left>, n: int) -> Records
    decreases n,
{
    if n <= 0 {
        t
    } else {
        let before = applied(t, c, w, stored, n - 1);
        if w[n - 1].0.0 != c {
            before
        } else {
            match stored[n - 1] {
                Some(r) => before.insert(w[n - 1].0.1, r),
                None => before.remove(w[n - 1].0.1),
            }
        }
    }
}

/// Whether what each of some fields is judged by says what the records say.
pub open spec fn guarded(
    s: Seq<IndexModel>,
    held: RowsModel,
    fields: Seq<Seq<char>>,
    keeps: Keeps,
    t: Records,
) -> bool {
    forall|k: int|
        0 <= k < fields.len() ==> judged_rightly(s, held, #[trigger] fields[k], keeps, t)
}

/// Whether no two records share a value of any of some fields.
pub open spec fn all_unshared(t: Records, fields: Seq<Seq<char>>) -> bool {
    forall|k: int| 0 <= k < fields.len() ==> unshared(t, #[trigger] fields[k])
}

/// Whether the `j`-th write put the record there is under an id.
spec fn put_by(w: Writes, stored: Seq<Left>, c: Seq<char>, now: Records, id: u64, j: int) -> bool {
    w[j].0 == (c, id) && stored[j] == Some(now[id])
}

/// A record is either as it was, or as an earlier write put it.
proof fn lemma_applied_from(
    t: Records,
    c: Seq<char>,
    w: Writes,
    stored: Seq<Left>,
    n: int,
    id: u64,
)
    requires
        0 <= n <= w.len(),
        applied(t, c, w, stored, n).dom().contains(id),
    ensures
        ({
            let now = applied(t, c, w, stored, n);
            (t.dom().contains(id) && now[id] == t[id]) || exists|j: int|
                0 <= j < n && #[trigger] put_by(w, stored, c, now, id, j)
        }),
    decreases n,
{
    if n > 0 {
        let now = applied(t, c, w, stored, n);
        let before = applied(t, c, w, stored, n - 1);
        if w[n - 1].0 == (c, id) {
            assert(put_by(w, stored, c, now, id, n - 1));
        } else {
            lemma_applied_from(t, c, w, stored, n - 1, id);
            if !(t.dom().contains(id) && before[id] == t[id]) {
                let j = choose|j: int|
                    0 <= j < n - 1 && #[trigger] put_by(w, stored, c, before, id, j);
                assert(put_by(w, stored, c, now, id, j));
            }
        }
    }
}

proof fn lemma_not_in_the_way(
    u: UniqueConstraints,
    w: Writes,
    stored: Seq<Left>,
    from: int,
    i: int,
)
    requires
        0 <= from <= i < w.len(),
        in_the_way(u, w, stored, from) is None,
    ensures
        put_twice(w, stored, constrained(u, w[i].0.0), i) is None,
    decreases i - from,
{
    if from < i {
        lemma_not_in_the_way(u, w, stored, from + 1, i);
    }
}

proof fn lemma_not_put_twice(
    w: Writes,
    stored: Seq<Left>,
    fields: Seq<Seq<char>>,
    i: int,
    k: int,
)
    requires
        0 <= k < fields.len(),
        put_twice(w, stored, fields, i) is None,
        stored[i] is Some,
    ensures
        value_in(stored[i]->Some_0, fields[k]) matches Some(v) ==> !put_before(
            w,
            stored,
            w[i].0.0,
            fields[k],
            v,
            i,
        ),
    decreases fields.len(),
{
    if k < fields.len() - 1 {
        assert(fields.drop_last()[k] == fields[k]);
        lemma_not_put_twice(w, stored, fields.drop_last(), i, k);
    }
}

proof fn lemma_not_refused(w: Writes, at: u64, s: Seq<StandingModel>, from: int, i: int)
    requires
        0 <= from <= i < w.len(),
        write_fault(w, at, s, from) is None,
        w[i].1 is Some,
    ensures
        s[i].refused is None,
    decreases i - from,
{
    if from < i {
        lemma_not_refused(w, at, s, from + 1, i);
    }
}

/// Every record that a commit puts fits the schema of its collection, where the commit
/// was allowed.
pub proof fn an_allowed_commit_fits_its_schemas(
    d: Derived,
    u: UniqueConstraints,
    held: StrMap<Rows>,
    txn: Transaction,
    stored: Seq<Left>,
    schemas: StrMap<Schema>,
    latest: Seq<Option<u64>>,
    rows: Seq<Option<u64>>,
    scans: Seq<Option<LastWrite>>,
    strict: bool,
    n: int,
)
    requires
        stands_for(stored, txn.pending()),
        commit_fault(d, u, held, txn, stored, schemas, latest, rows, scans, strict) is None,
        0 <= n < txn.pending().len(),
    ensures
        stored[n] matches Some(r) ==> (schemas.of(txn.pending()[n].0.0) matches Some(s) && accepts(
            s@,
            r,
        )),
{
    let w = txn.pending();
    let full = all_stand(d, u, held, w, stored, schemas, latest);
    if stored[n] is Some {
        lemma_not_refused(w, txn.taken_at(), full, 0, n);
        assert(full[n] == stands(d, u, held, w, stored, schemas, latest, n));
    }
}

/// No record has a value that the next write, which is not refused, may not share.
proof fn lemma_nobody_holds(
    d: Derived,
    u: UniqueConstraints,
    held: StrMap<Rows>,
    txn: Transaction,
    stored: Seq<Left>,
    schemas: StrMap<Schema>,
    latest: Seq<Option<u64>>,
    rows: Seq<Option<u64>>,
    scans: Seq<Option<LastWrite>>,
    strict: bool,
    keeps: Keeps,
    t: Records,
    n: int,
    k: int,
    other: u64,
)
    requires
        stands_for(stored, txn.pending()),
        commit_fault(d, u, held, txn, stored, schemas, latest, rows, scans, strict) is None,
        0 <= n < txn.pending().len(),
        stored[n] is Some,
        ({
            let c = txn.pending()[n].0.0;
            &&& guarded(d.indexes_of(c), held_in(held, c), constrained(u, c), keeps, t)
            &&& 0 <= k < constrained(u, c).len()
            &&& applied(t, c, txn.pending(), stored, n).dom().contains(other)
        }),
        other != txn.pending()[n].0.1,
    ensures
        ({
            let c = txn.pending()[n].0.0;
            let f = constrained(u, c)[k];
            value_in(stored[n]->Some_0, f) is Some ==> value_in(
                applied(t, c, txn.pending(), stored, n)[other],
                f,
            ) != value_in(stored[n]->Some_0, f)
        }),
{
    let w = txn.pending();
    let c = w[n].0.0;
    let fields = constrained(u, c);
    let f = fields[k];
    let now = applied(t, c, w, stored, n);
    let r = stored[n]->Some_0;
    let full = all_stand(d, u, held, w, stored, schemas, latest);
    if value_in(r, f) is Some && value_in(now[other], f) == value_in(r, f) {
        let v = value_in(r, f)->Some_0;
        lemma_applied_from(t, c, w, stored, n, other);
        if t.dom().contains(other) && now[other] == t[other] {
            lemma_not_refused(w, txn.taken_at(), full, 0, n);
            assert(full[n] == stands(d, u, held, w, stored, schemas, latest, n));
            assert(fields.contains(f));
            let (s, h) = (d.indexes_of(c), held_in(held, c));
            lemma_no_breach(s, h, fields, f, Some(w[n].0.1), r);
            lemma_conflicts(s, h, f, keeps, t, v, Some(w[n].0.1));
            assert(value_in(t[other], f) == Some(v));
        } else {
            let j = choose|j: int| 0 <= j < n && #[trigger] put_by(w, stored, c, now, other, j);
            lemma_not_in_the_way(u, w, stored, 0, n);
            lemma_not_put_twice(w, stored, fields, n, k);
            assert(puts_value(w, stored, c, f, v, j));
        }
    }
}

/// A transaction is applied whole or not at all: where committing it was allowed, no
/// write of it is refused when its turn comes, whatever it is judged by then, so long
/// as that says what the records say.
pub proof fn an_allowed_commit_is_applied_whole(
    d: Derived,
    u: UniqueConstraints,
    held: StrMap<Rows>,
    txn: Transaction,
    stored: Seq<Left>,
    schemas: StrMap<Schema>,
    latest: Seq<Option<u64>>,
    rows: Seq<Option<u64>>,
    scans: Seq<Option<LastWrite>>,
    strict: bool,
    keeps: Keeps,
    t: Records,
    n: int,
    by_then: Seq<IndexModel>,
    held_then: RowsModel,
)
    requires
        stands_for(stored, txn.pending()),
        commit_fault(d, u, held, txn, stored, schemas, latest, rows, scans, strict) is None,
        0 <= n < txn.pending().len(),
        stored[n] is Some,
        ({
            let c = txn.pending()[n].0.0;
            &&& guarded(d.indexes_of(c), held_in(held, c), constrained(u, c), keeps, t)
            &&& guarded(
                by_then,
                held_then,
                constrained(u, c),
                keeps,
                applied(t, c, txn.pending(), stored, n),
            )
        }),
    ensures
        stored_breach(
            by_then,
            held_then,
            constrained(u, txn.pending()[n].0.0),
            Some(txn.pending()[n].0.1),
            stored[n]->Some_0,
        ) is None,
{
    let w = txn.pending();
    let c = w[n].0.0;
    let fields = constrained(u, c);
    let now = applied(t, c, w, stored, n);
    let r = stored[n]->Some_0;
    assert forall|k: int| 0 <= k < fields.len() && value_in(r, #[trigger] fields[k]) is Some implies !conflicts(
        by_then,
        held_then,
        fields[k],
        value_in(r, fields[k])->Some_0,
        Some(w[n].0.1),
    ) by {
        let v = value_in(r, fields[k])->Some_0;
        lemma_conflicts(by_then, held_then, fields[k], keeps, now, v, Some(w[n].0.1));
        assert forall|id: u64|
            now.dom().contains(id) && value_in(#[trigger] now[id], fields[k]) == Some(v) implies Some(
            id,
        ) == Some(w[n].0.1) by {
            if id != w[n].0.1 {
                lemma_nobody_holds(
                    d, u, held, txn, stored, schemas, latest, rows, scans, strict, keeps, t, n, k, id,
                );
            }
        }
    }
    lemma_all_clear(by_then, held_then, fields, Some(w[n].0.1), r, fields.len() as int);
    assert(fields.take(fields.len() as int) =~= fields);
}

proof fn lemma_all_clear(
    s: Seq<IndexModel>,
    held: RowsModel,
    fields: Seq<Seq<char>>,
    exclude: Option<u64>,
    r: RecordModel,
    n: int,
)
    requires
        0 <= n <= fields.len(),
        forall|k: int|
            0 <= k < fields.len() && value_in(r, #[trigger] fields[k]) is Some ==> !conflicts(
                s,
                held,
                fields[k],
                value_in(r, fields[k])->Some_0,
                exclude,
            ),
    ensures
        stored_breach(s, held, fields.take(n), exclude, r) is None,
    decreases n,
{
    if n > 0 {
        lemma_all_clear(s, held, fields, exclude, r, n - 1);
        assert(fields.take(n).drop_last() =~= fields.take(n - 1));
        assert(fields.take(n).last() == fields[n - 1]);
    }
}

/// A commit that was allowed leaves the values of constrained fields unshared, after
/// each of its writes.
pub proof fn an_allowed_commit_keeps_values_unshared(
    d: Derived,
    u: UniqueConstraints,
    held: StrMap<Rows>,
    txn: Transaction,
    stored: Seq<Left>,
    schemas: StrMap<Schema>,
    latest: Seq<Option<u64>>,
    rows: Seq<Option<u64>>,
    scans: Seq<Option<LastWrite>>,
    strict: bool,
    keeps: Keeps,
    t: Records,
    c: Seq<char>,
    n: int,
)
    requires
        stands_for(stored, txn.pending()),
        commit_fault(d, u, held, txn, stored, schemas, latest, rows, scans, strict) is None,
        guarded(d.indexes_of(c), held_in(held, c), constrained(u, c), keeps, t),
        all_unshared(t, constrained(u, c)),
        0 <= n <= txn.pending().len(),
    ensures
        all_unshared(applied(t, c, txn.pending(), stored, n), constrained(u, c)),
    decreases n,
{
    let w = txn.pending();
    let fields = constrained(u, c);
    if n > 0 {
        an_allowed_commit_keeps_values_unshared(
            d, u, held, txn, stored, schemas, latest, rows, scans, strict, keeps, t, c, n - 1,
        );
        let before = applied(t, c, w, stored, n - 1);
        let now = applied(t, c, w, stored, n);
        assert forall|k: int| 0 <= k < fields.len() implies unshared(now, #[trigger] fields[k]) by {
            let f = fields[k];
            assert(unshared(before, f));
            assert forall|a: u64, b: u64|
                #![trigger now[a], now[b]]
                now.dom().contains(a) && now.dom().contains(b) && a != b && value_in(
                    now[a],
                    f,
                ) is Some implies value_in(now[a], f) != value_in(now[b], f) by {
                let id = w[n - 1].0.1;
                if w[n - 1].0.0 == c && (a == id || b == id) {
                    let other = if a == id { b } else { a };
                    assert(before[other] == now[other]);
                    lemma_nobody_holds(
                        d, u, held, txn, stored, schemas, latest, rows, scans, strict, keeps, t, n - 1,
                        k, other,
                    );
                } else {
                    assert(before[a] == now[a] && before[b] == now[b]);
                }
            }
        }
    }
}

// -- what stands against a commit -------------------------------------------------

proof fn lemma_put_twice(w: Writes, stored: Seq<Left>, fields: Seq<Seq<char>>, i: int)
    requires
        0 <= i < w.len(),
        stored.len() == w.len(),
    ensures
        put_twice(w, stored, fields, i) is None <==> forall|k: int, j: int|
            #![trigger fields[k], stored[j]]
            0 <= k < fields.len() && 0 <= j < i ==> !puts_again(w, stored, fields[k], j, i),
    decreases fields.len(),
{
    if fields.len() > 0 {
        let rest = fields.drop_last();
        let f = fields.last();
        let n = fields.len() - 1;
        assert(fields[n] == f);
        lemma_put_twice(w, stored, rest, i);
        assert forall|k: int| 0 <= k < n implies #[trigger] rest[k] == fields[k] by {}
        let now = match stored[i] {
            Some(r) => match value_in(r, f) {
                Some(v) => put_before(w, stored, w[i].0.0, f, v, i),
                None => false,
            },
            None => false,
        };
        assert(now <==> exists|j: int| 0 <= j < i && #[trigger] puts_again(w, stored, f, j, i)) by {
            if now {
                let v = value_in(stored[i]->Some_0, f)->Some_0;
                let j = choose|j: int|
                    0 <= j < i && #[trigger] puts_value(w, stored, w[i].0.0, f, v, j);
                assert(puts_again(w, stored, f, j, i));
            }
            if exists|j: int| 0 <= j < i && #[trigger] puts_again(w, stored, f, j, i) {
                let j = choose|j: int| 0 <= j < i && #[trigger] puts_again(w, stored, f, j, i);
                let v = value_in(stored[i]->Some_0, f)->Some_0;
                assert(puts_value(w, stored, w[i].0.0, f, v, j));
            }
        }
        if put_twice(w, stored, fields, i) is None {
            assert forall|k: int, j: int|
                #![trigger fields[k], stored[j]]
                0 <= k < fields.len() && 0 <= j < i implies !puts_again(
                w,
                stored,
                fields[k],
                j,
                i,
            ) by {
                if k < n {
                    assert(rest[k] == fields[k]);
                }
            }
        } else if put_twice(w, stored, rest, i) is Some {
            let (k, j) = choose|k: int, j: int|
                #![trigger rest[k], stored[j]]
                0 <= k < rest.len() && 0 <= j < i && puts_again(w, stored, rest[k], j, i);
            assert(fields[k] == rest[k]);
            assert(stored[j] == stored[j]);
        } else {
            let j = choose|j: int| 0 <= j < i && #[trigger] puts_again(w, stored, f, j, i);
            assert(fields[n] == f && stored[j] == stored[j]);
        }
    }
}

/// Whether two writes put records of one collection that share a value under a name.
pub open spec fn puts_again(w: Writes, stored: Seq<Left>, field: Seq<char>, i: int, j: int) -> bool {
    w[i].0.0 == w[j].0.0 && stored[i] is Some && stored[j] is Some && share_a_value(
        stored[i]->Some_0,
        stored[j]->Some_0,
        field,
    )
}

proof fn lemma_in_the_way(u: UniqueConstraints, w: Writes, stored: Seq<Left>, from: int)
    requires
        0 <= from <= w.len(),
        stored.len() == w.len(),
    ensures
        in_the_way(u, w, stored, from) is None <==> forall|j: int|
            from <= j < w.len() ==> put_twice(
                w,
                stored,
                constrained(u, (#[trigger] w[j]).0.0),
                j,
            ) is None,
    decreases w.len() - from,
{
    if from < w.len() {
        lemma_in_the_way(u, w, stored, from + 1);
        assert(w[from] == w[from]);
    }
}

/// Whether nothing stands against one write of a commit: its key was not written after
/// the snapshot; and a record it puts is of a collection that there is, fits that
/// collection's schema and shares no constrained value with a record already stored.
pub open spec fn may_be_written(
    u: UniqueConstraints,
    schemas: StrMap<Schema>,
    all: spec_fn(Seq<char>) -> Records,
    at: u64,
    key: (Seq<char>, u64),
    left: Left,
    latest: Option<u64>,
) -> bool {
    &&& latest matches Some(t) ==> t <= at
    &&& left matches Some(r) ==> {
        &&& schemas.of(key.0) matches Some(s) && accepts(s@, r)
        &&& forall|f: Seq<char>|
            u@.contains((key.0, f)) ==> !#[trigger] shared_with_another(
                all(key.0),
                f,
                Some(key.1),
                r,
            )
    }
}

/// A commit is allowed exactly where nothing stands against it: it writes nothing, or
/// each of its writes may be made, no two of them put a constrained value twice, and,
/// under the strict guarantee, nothing it read or scanned was written after its snapshot.
pub proof fn a_commit_is_allowed_where_nothing_stands_against_it(
    d: Derived,
    u: UniqueConstraints,
    held: StrMap<Rows>,
    txn: Transaction,
    stored: Seq<Left>,
    schemas: StrMap<Schema>,
    latest: Seq<Option<u64>>,
    rows: Seq<Option<u64>>,
    scans: Seq<Option<LastWrite>>,
    strict: bool,
    keeps: Keeps,
    all: spec_fn(Seq<char>) -> Records,
)
    requires
        stands_for(stored, txn.pending()),
        latest.len() == txn.pending().len(),
        rows.len() == txn.observed().len(),
        scans.len() == txn.scanned().len(),
        forall|c: Seq<char>|
            guarded(
                d.indexes_of(c),
                held_in(held, c),
                #[trigger] constrained(u, c),
                keeps,
                all(c),
            ),
    ensures
        ({
            let w = txn.pending();
            let o = txn.observed();
            let at = txn.taken_at();
            commit_fault(d, u, held, txn, stored, schemas, latest, rows, scans, strict) is None
                <==> w.len() == 0 || {
                &&& forall|i: int|
                    #![trigger w[i]]
                    0 <= i < w.len() ==> may_be_written(
                        u,
                        schemas,
                        all,
                        at,
                        w[i].0,
                        stored[i],
                        latest[i],
                    )
                &&& strict ==> forall|i: int|
                    #![trigger o[i]]
                    0 <= i < o.len() && !writes_itself(w, o[i]) ==> (rows[i] matches Some(t) ==> t
                        <= at)
                &&& strict ==> forall|i: int|
                    #![trigger scans[i]]
                    0 <= i < scans.len() ==> (scans[i] matches Some(l) ==> l.at <= at)
                &&& forall|i: int, j: int, f: Seq<char>|
                    0 <= i < j < w.len() && u@.contains((w[j].0.0, f)) ==> !#[trigger] puts_again(
                        w,
                        stored,
                        f,
                        i,
                        j,
                    )
            }
        }),
{
    let w = txn.pending();
    let at = txn.taken_at();
    let full = all_stand(d, u, held, w, stored, schemas, latest);
    a_transaction_is_applied_where_nothing_stands_against_it(
        w,
        txn.observed(),
        txn.scanned(),
        at,
        full,
        rows,
        scans,
        strict,
    );
    lemma_in_the_way(u, w, stored, 0);
    assert forall|i: int| #![trigger w[i]] #![trigger full[i]] 0 <= i < w.len() implies may_be_written(
        u,
        schemas,
        all,
        at,
        w[i].0,
        stored[i],
        latest[i],
    ) == ((full[i].latest matches Some(t) ==> t <= at) && (w[i].1 is Some ==> full[i].refused is None)) by {
        assert(full[i] == stands(d, u, held, w, stored, schemas, latest, i));
        let c = w[i].0.0;
        let fields = constrained(u, c);
        assert(guarded(d.indexes_of(c), held_in(held, c), constrained(u, c), keeps, all(c)));
        if let Some(r) = stored[i] {
            a_write_is_refused_for_a_shared_value_and_nothing_else(
                d.indexes_of(c),
                held_in(held, c),
                fields,
                keeps,
                all(c),
                Some(w[i].0.1),
                r,
            );
            assert forall|f: Seq<char>| fields.contains(f) == #[trigger] u@.contains((c, f)) by {
                listed_fields_are_the_constrained_ones(u, c, f);
            }
            let breach = stored_breach(
                d.indexes_of(c),
                held_in(held, c),
                fields,
                Some(w[i].0.1),
                r,
            );
            if breach is Some {
                let f = breach->Some_0.0;
                assert(fields.contains(f));
                assert(u@.contains((c, f)));
                assert(shared_with_another(all(c), f, Some(w[i].0.1), r));
            } else {
                assert forall|f: Seq<char>| u@.contains((c, f)) implies !#[trigger] shared_with_another(
                    all(c),
                    f,
                    Some(w[i].0.1),
                    r,
                ) by {
                    assert(fields.contains(f));
                    let k = choose|k: int| 0 <= k < fields.len() && fields[k] == f;
                    assert(!shared_with_another(all(c), fields[k], Some(w[i].0.1), r));
                }
            }
        }
    }
    assert(in_the_way(u, w, stored, 0) is None <==> forall|i: int, j: int, f: Seq<char>|
        0 <= i < j < w.len() && u@.contains((w[j].0.0, f)) ==> !#[trigger] puts_again(
            w,
            stored,
            f,
            i,
            j,
        )) by {
        assert forall|j: int| 0 <= j < w.len() implies (put_twice(
            w,
            stored,
            constrained(u, (#[trigger] w[j]).0.0),
            j,
        ) is None <==> forall|i: int, f: Seq<char>|
            0 <= i < j && u@.contains((w[j].0.0, f)) ==> !#[trigger] puts_again(
                w,
                stored,
                f,
                i,
                j,
            )) by {
            let c = w[j].0.0;
            let fields = constrained(u, c);
            lemma_put_twice(w, stored, fields, j);
            assert forall|f: Seq<char>| fields.contains(f) == #[trigger] u@.contains((c, f)) by {
                listed_fields_are_the_constrained_ones(u, c, f);
            }
            if put_twice(w, stored, fields, j) is None {
                assert forall|i: int, f: Seq<char>| 0 <= i < j && u@.contains((c, f)) implies !#[trigger] puts_again(
                    w,
                    stored,
                    f,
                    i,
                    j,
                ) by {
                    assert(fields.contains(f));
                    let k = choose|k: int| 0 <= k < fields.len() && fields[k] == f;
                    assert(stored[i] == stored[i]);
                    assert(!puts_again(w, stored, fields[k], i, j));
                }
            } else {
                let (k, i) = choose|k: int, i: int|
                    #![trigger fields[k], stored[i]]
                    0 <= k < fields.len() && 0 <= i < j && puts_again(w, stored, fields[k], i, j);
                assert(fields.contains(fields[k]));
                assert(u@.contains((c, fields[k])));
                assert(puts_again(w, stored, fields[k], i, j));
            }
        }
    }
}

} // verus!
