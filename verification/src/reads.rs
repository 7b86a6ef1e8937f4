//! Reading one record, or part of one.
//!
//! Where records are addressed directly a read is answered from the array.
//! Elsewhere, and where the array is a candidate the query may not see, storage
//! has to be asked.

use vstd::prelude::*;
use crate::database::Database;
use crate::derived::array_faithful;
use crate::direct::{
    addressable, lemma_accepted_holds, reads_field, reads_record, undecodable, ArrayModel,
    DirectArray,
};
use crate::error::{Error, ErrorModel};
use crate::experiment::list_hidden;
use crate::index::Records;
use crate::layout::{a_record_reads_back, declared_at, field_read, record_bytes, stored};
use crate::record::{field_of, Record, RecordModel};
use crate::schema::accepts;
use crate::text::texts;
use crate::trials::revealed;
use crate::value::{Value, ValueModel};

verus! {

/// The array a query may read a collection from, if any.
pub open spec fn visible_array(db: Database, c: Seq<char>) -> Option<ArrayModel> {
    if list_hidden(db.trials@.hidden.direct, revealed(db.trials@), c) {
        None
    } else {
        db.derived.array_of(c)
    }
}

/// Whether this is what reading some fields of a record comes to.
pub open spec fn reads_fields(
    a: ArrayModel,
    id: u64,
    fields: Seq<Seq<char>>,
    r: Result<Option<Record>, Error>,
) -> bool {
    if !a.slots.dom().contains(id) {
        r matches Ok(v) && v is None
    } else if exists|i: int|
        0 <= i < fields.len() && field_read(
            a.schema.fields,
            a.slots[id],
            #[trigger] fields[i],
        ) is None {
        r matches Err(e) && e@ == ErrorModel::Corruption(undecodable())
    } else {
        r matches Ok(Some(rec)) && forall|name: Seq<char>| #[trigger]
            field_of(rec.model(), name) == if fields.contains(name) {
                field_read(a.schema.fields, a.slots[id], name)->Some_0
            } else {
                None
            }
    }
}

fn project_from(a: &DirectArray, id: u64, fields: &Vec<String>) -> (r: Result<Option<Record>, Error>)
    requires
        a.wf(),
    ensures
        reads_fields(a@, id, texts(fields@), r),
{
    if !a.contains(id) {
        return Ok(None);
    }
    let ghost names = texts(fields@);
    let ghost slot = a@.slots[id];
    let mut rec = Record::new();
    let mut i: usize = 0;
    while i < fields.len()
        invariant
            i <= fields@.len(),
            a.wf(),
            a@.slots.dom().contains(id),
            slot == a@.slots[id],
            names == texts(fields@),
            forall|k: int|
                0 <= k < i ==> field_read(a@.schema.fields, slot, #[trigger] names[k]) is Some,
            forall|name: Seq<char>| #[trigger]
                field_of(rec.model(), name) == if names.take(i as int).contains(name) {
                    field_read(a@.schema.fields, slot, name)->Some_0
                } else {
                    None
                },
        decreases fields@.len() - i,
    {
        let ghost was = rec.model();
        let ghost here = names[i as int];
        assert(here == fields@[i as int]@);
        let got = a.field_at(id, fields[i].as_str());
        match got {
            Err(e) => {
                assert(field_read(a@.schema.fields, a@.slots[id], names[i as int]) is None);
                return Err(e);
            },
            Ok(None) => {},
            Ok(Some(v)) => {
                rec.set(fields[i].as_str(), v);
            },
        }
        proof {
            assert(field_read(a@.schema.fields, slot, names[i as int]) is Some);
            assert forall|name: Seq<char>| #[trigger]
                field_of(rec.model(), name) == if names.take(i + 1).contains(name) {
                    field_read(a@.schema.fields, slot, name)->Some_0
                } else {
                    None
                } by {
                let (x, y) = (names.take(i as int), names.take(i + 1));
                assert(y =~= x.push(here));
                assert(y[i as int] == here);
                if x.contains(name) {
                    let k = choose|k: int| 0 <= k < x.len() && x[k] == name;
                    assert(y[k] == name);
                }
                if name != here {
                    assert(rec.field(name) == field_of(rec.model(), name));
                    assert(field_of(rec.model(), name) == field_of(was, name));
                    if y.contains(name) {
                        let k = choose|k: int| 0 <= k < y.len() && y[k] == name;
                        assert(x[k] == name);
                    }
                }
            }
        }
        i += 1;
    }
    assert(names.take(i as int) =~= names);
    Ok(Some(rec))
}

/// Every how many record reads one is sampled.
pub const TOUCH_STRIDE: u32 = 16;

impl Database {
    /// The array a query may read a collection from, if any.
    fn array_for(&self, collection: &str) -> (r: Option<&DirectArray>)
        requires
            self.wf(),
        ensures
            match visible_array(*self, collection@) {
                Some(a) => r matches Some(d) && d.wf() && d@ == a,
                None => r is None,
            },
    {
        let shown = self.trials.revealed();
        if self.trials.hidden.hides_direct(shown, collection) {
            None
        } else {
            self.derived.direct.get(collection)
        }
    }

    /// The record of an id, from an array. Nothing where storage has to be asked.
    pub fn get(&self, collection: &str, id: u64) -> (r: Option<Result<Option<Record>, Error>>)
        requires
            self.wf(),
        ensures
            match self.derived.array_of(collection@) {
                Some(a) => r matches Some(x) && reads_record(a, id, x),
                None => r is None,
            },
    {
        match self.derived.direct.get(collection) {
            Some(d) => Some(d.get(id)),
            None => None,
        }
    }

    /// One field of one record, from an array. Nothing where storage has to be
    /// asked.
    pub fn field_of(&self, collection: &str, id: u64, field: &str) -> (r: Option<
        Result<Option<Value>, Error>,
    >)
        requires
            self.wf(),
        ensures
            match self.derived.array_of(collection@) {
                Some(a) => r matches Some(x) && reads_field(a, id, field@, x),
                None => r is None,
            },
    {
        match self.derived.direct.get(collection) {
            Some(d) => Some(d.field_at(id, field)),
            None => None,
        }
    }

    /// The record of an id, from an array the query may see. Nothing where storage
    /// has to be asked.
    pub fn fetch(&self, collection: &str, id: u64) -> (r: Option<Result<Option<Record>, Error>>)
        requires
            self.wf(),
        ensures
            match visible_array(*self, collection@) {
                Some(a) => r matches Some(x) && reads_record(a, id, x),
                None => r is None,
            },
    {
        match self.array_for(collection) {
            Some(d) => Some(d.get(id)),
            None => None,
        }
    }

    /// One field of a record, from an array the query may see: nothing of a record
    /// that is not there, and no value of a field that one does not have. Nothing
    /// at all where storage has to be asked.
    pub fn peek_field(&self, collection: &str, id: u64, field: &str) -> (r: Option<
        Result<Option<Option<Value>>, Error>,
    >)
        requires
            self.wf(),
        ensures
            match visible_array(*self, collection@) {
                None => r is None,
                Some(a) => r matches Some(x) && if !a.slots.dom().contains(id) {
                    x matches Ok(v) && v is None
                } else {
                    match x {
                        Ok(Some(v)) => reads_field(a, id, field@, Ok(v)),
                        Ok(None) => false,
                        Err(e) => reads_field(a, id, field@, Err(e)),
                    }
                },
            },
    {
        match self.array_for(collection) {
            None => None,
            Some(d) => {
                if !d.contains(id) {
                    return Some(Ok(None));
                }
                match d.field_at(id, field) {
                    Ok(v) => Some(Ok(Some(v))),
                    Err(e) => Some(Err(e)),
                }
            },
        }
    }

    /// Some fields of a record, from an array the query may see. Nothing where
    /// storage has to be asked.
    pub fn fetch_projected(&self, collection: &str, id: u64, fields: &Vec<String>) -> (r: Option<
        Result<Option<Record>, Error>,
    >)
        requires
            self.wf(),
        ensures
            match visible_array(*self, collection@) {
                Some(a) => r matches Some(x) && reads_fields(a, id, texts(fields@), x),
                None => r is None,
            },
    {
        match self.array_for(collection) {
            Some(d) => Some(project_from(d, id, fields)),
            None => None,
        }
    }

    /// Note that a record was read. Returns whether this read is sampled: one in
    /// sixteen is.
    pub fn note_touch(&mut self) -> (sampled: bool)
        requires
            old(self).wf(),
        ensures
            final(self).wf(),
            ({
                let n: u32 = if old(self).touch_sample == u32::MAX {
                    0
                } else {
                    (old(self).touch_sample + 1) as u32
                };
                &&& *final(self) == (Database { touch_sample: n, ..*old(self) })
                &&& sampled == (n % TOUCH_STRIDE == 0)
            }),
    {
        self.touch_sample = if self.touch_sample == u32::MAX {
            0
        } else {
            self.touch_sample + 1
        };
        self.touch_sample % TOUCH_STRIDE == 0
    }
}

/// What is stored of a field of a record that is addressed directly.
pub open spec fn stored_field(a: ArrayModel, r: RecordModel, name: Seq<char>) -> Option<ValueModel> {
    match declared_at(a.schema.fields, name) {
        Some(i) => stored(a.schema.fields[i].ty, field_of(r, name)),
        None => None,
    }
}

/// A whole record read from an array that says what the records say is the record of
/// that id, as it is stored. None is found exactly where there is none, and nothing
/// fails to decode.
pub proof fn a_whole_read_is_of_the_record(
    a: ArrayModel,
    t: Records,
    id: u64,
    whole: Result<Option<Record>, Error>,
)
    requires
        addressable(a.schema),
        array_faithful(a, t),
        reads_record(a, id, whole),
    ensures
        if t.dom().contains(id) {
            whole matches Ok(Some(rec)) && forall|n: Seq<char>| #[trigger]
                field_of(rec.model(), n) == stored_field(a, t[id], n)
        } else {
            whole matches Ok(rec) && rec is None
        },
{
    assert(a.slots.dom().contains(id) <==> t.dom().contains(id));
    if t.dom().contains(id) {
        let r = t[id];
        assert(accepts(a.schema, r) && a.slots[id] == record_bytes(a.schema.fields, r));
        lemma_accepted_holds(a.schema, r);
        assert forall|n: Seq<char>| #[trigger]
            field_read(a.schema.fields, a.slots[id], n) == Some(stored_field(a, r, n)) by {
            a_record_reads_back(a.schema.fields, r, n);
        }
        a_record_reads_back(a.schema.fields, r, Seq::empty());
    }
}

/// A read answered from an array that says what the records say is of the record of
/// that id, as it is stored: all of it, a field of it, or some fields of it. None is
/// found exactly where there is none, and nothing fails to decode.
pub proof fn a_direct_read_is_of_the_record(
    a: ArrayModel,
    t: Records,
    id: u64,
    whole: Result<Option<Record>, Error>,
    name: Seq<char>,
    one: Result<Option<Value>, Error>,
    fields: Seq<Seq<char>>,
    some: Result<Option<Record>, Error>,
)
    requires
        addressable(a.schema),
        array_faithful(a, t),
        reads_record(a, id, whole),
        reads_field(a, id, name, one),
        reads_fields(a, id, fields, some),
    ensures
        if t.dom().contains(id) {
            &&& whole matches Ok(Some(rec)) && forall|n: Seq<char>| #[trigger]
                field_of(rec.model(), n) == stored_field(a, t[id], n)
            &&& match stored_field(a, t[id], name) {
                Some(m) => one matches Ok(Some(v)) && v.model() == m,
                None => one matches Ok(v) && v is None,
            }
            &&& some matches Ok(Some(rec)) && forall|n: Seq<char>| #[trigger]
                field_of(rec.model(), n) == if fields.contains(n) {
                    stored_field(a, t[id], n)
                } else {
                    None
                }
        } else {
            &&& whole matches Ok(rec) && rec is None
            &&& one matches Ok(v) && v is None
            &&& some matches Ok(rec) && rec is None
        },
{
    assert(a.slots.dom().contains(id) <==> t.dom().contains(id));
    if t.dom().contains(id) {
        let r = t[id];
        assert(accepts(a.schema, r) && a.slots[id] == record_bytes(a.schema.fields, r));
        lemma_accepted_holds(a.schema, r);
        a_record_reads_back(a.schema.fields, r, name);
        assert forall|n: Seq<char>| #[trigger]
            field_read(a.schema.fields, a.slots[id], n) == Some(stored_field(a, r, n)) by {
            a_record_reads_back(a.schema.fields, r, n);
        }
    }
}

/// A query reads records from a collection's array unless a running experiment other than
/// its own has the array hidden. One that no experiment has hidden is read by every query.
pub proof fn a_query_reads_what_is_not_hidden_from_it(db: Database, c: Seq<char>, a: ArrayModel)
    ensures
        visible_array(db, c) == Some(a) <==> db.derived.array_of(c) == Some(a) && forall|i: int|
            0 <= i < db.trials@.hidden.direct.len() && (#[trigger] db.trials@.hidden.direct[i]).1 == c
                ==> db.trials@.candidate_visible && db.trials@.under_test == Some(
                db.trials@.hidden.direct[i].0,
            ),
{
    let s = db.trials@.hidden.direct;
    if list_hidden(s, revealed(db.trials@), c) {
        let i = choose|i: int|
            0 <= i < s.len() && Some((#[trigger] s[i]).0) != revealed(db.trials@) && s[i].1 == c;
        assert(s[i].1 == c);
    }
}

} // verus!
