//! Directly addressed storage: where every record has the same size, a record's
//! place is its id times that size.
//!
//! The array is derived: every byte can be had again from the records it copies.

use vstd::arithmetic::mul::*;
use vstd::prelude::*;
use vstd::slice::*;
use crate::caches::{rows_model, Rows};
use crate::error::{Error, ErrorModel};
use crate::layout::{
    all_hold, all_slots, decode_field, decode_record, encode_record, field_read, lemma_record_bytes,
    readable, record_bytes,
};
use crate::number::{add_capped, capped, mul_capped};
use crate::record::{field_of, Record, RecordModel};
use crate::rows::RowsModel;
use crate::schema::{
    accepts, all_declarable, layout_bytes, satisfied, Schema, SchemaMode, SchemaModel,
};
use crate::text::{dec, dec_text};
use crate::value::Value;

verus! {

/// A flat array of records of one size, with a bit per id for which are there.
pub struct DirectArray {
    schema: Schema,
    stride: usize,
    bytes: Vec<u8>,
    present: Vec<u64>,
    capacity: u64,
    live: u64,
}

/// What a [`DirectArray`] holds: the bytes of each record that is there, and one
/// past the highest id ever stored.
#[verifier::ext_equal]
pub struct ArrayModel {
    pub schema: SchemaModel,
    pub slots: Map<u64, Seq<u8>>,
    pub capacity: u64,
}

spec fn bit(words: Seq<u64>, id: u64) -> bool {
    (id / 64) < words.len() && words[(id / 64) as int] & (1u64 << (id % 64)) != 0
}

spec fn place(bytes: Seq<u8>, stride: int, id: int) -> Seq<u8> {
    bytes.subrange(id * stride, id * stride + stride)
}

/// Whether every record under a schema has one size.
pub open spec fn addressable(s: SchemaModel) -> bool {
    s.mode == SchemaMode::Fixed && all_slots(s.fields) && layout_bytes(s.fields) <= usize::MAX
}

/// The complaint about a write of another size.
pub open spec fn wrong_size(stride: nat, got: nat) -> Seq<char> {
    "direct array stride is "@ + dec_text(stride) + " but record encoded to "@ + dec_text(got)
}

/// Whether an id can be given a place in memory.
pub open spec fn reachable(s: SchemaModel, id: u64) -> bool {
    id < usize::MAX && (id + 1) * layout_bytes(s.fields) <= usize::MAX
}

/// The array after a record's bytes are put.
pub open spec fn placed(a: ArrayModel, id: u64, bytes: Seq<u8>) -> ArrayModel {
    ArrayModel {
        slots: a.slots.insert(id, bytes),
        capacity: if id >= a.capacity {
            (id + 1) as u64
        } else {
            a.capacity
        },
        ..a
    }
}

proof fn lemma_bits(v: u64, b: u64, c: u64)
    requires
        b < 64,
        c < 64,
    ensures
        ((v | (1u64 << b)) & (1u64 << c) != 0) == (b == c || v & (1u64 << c) != 0),
        ((v & !(1u64 << b)) & (1u64 << c) != 0) == (b != c && v & (1u64 << c) != 0),
        0u64 & (1u64 << c) == 0,
{
    assert(((v | (1u64 << b)) & (1u64 << c) != 0) == (b == c || v & (1u64 << c) != 0))
        by (bit_vector)
        requires
            b < 64,
            c < 64,
    ;
    assert(((v & !(1u64 << b)) & (1u64 << c) != 0) == (b != c && v & (1u64 << c) != 0))
        by (bit_vector)
        requires
            b < 64,
            c < 64,
    ;
    assert(0u64 & (1u64 << c) == 0) by (bit_vector);
}

/// Places of different ids do not touch.
proof fn lemma_apart(stride: int, a: int, b: int)
    requires
        0 <= stride,
        a < b,
    ensures
        a * stride + stride <= b * stride,
{
    assert(a * stride + stride == (a + 1) * stride) by (nonlinear_arith);
    lemma_mul_inequality(a + 1, b, stride);
}

impl View for DirectArray {
    type V = ArrayModel;

    closed spec fn view(&self) -> ArrayModel {
        ArrayModel {
            schema: self.schema@,
            slots: Map::new(
                |id: u64| bit(self.present@, id),
                |id: u64| place(self.bytes@, self.stride as int, id as int),
            ),
            capacity: self.capacity,
        }
    }
}

impl DirectArray {
    pub closed spec fn wf(&self) -> bool {
        &&& addressable(self.schema@)
        &&& self.stride == layout_bytes(self.schema@.fields)
        &&& self.capacity <= usize::MAX
        &&& self.bytes@.len() == self.capacity * self.stride
        &&& forall|id: u64| #[trigger] bit(self.present@, id) ==> id < self.capacity
        &&& self@.slots.dom().finite()
        &&& self.live == self@.slots.dom().len()
    }

    /// How many words of presence bits are kept.
    pub closed spec fn words(&self) -> nat {
        self.present@.len()
    }

    /// What holds of every array: each record that is there has the one size and
    /// an id below the capacity.
    pub proof fn an_array_is_uniform(&self, id: u64)
        requires
            self.wf(),
        ensures
            addressable(self@.schema),
            self@.slots.dom().finite(),
            self@.slots.dom().contains(id) ==> id < self@.capacity && self@.slots[id].len()
                == layout_bytes(self@.schema.fields),
    {
        if self@.slots.dom().contains(id) {
            assert(bit(self.present@, id));
            self.lemma_inside(id);
        }
    }

    proof fn lemma_inside(&self, id: u64)
        requires
            self.wf(),
            id < self.capacity,
        ensures
            0 <= id * self.stride,
            id * self.stride + self.stride <= self.bytes@.len(),
    {
        lemma_apart(self.stride as int, id as int, self.capacity as int);
        lemma_mul_nonnegative(id as int, self.stride as int);
    }

    /// Build one. Nothing where the schema has no constant size.
    pub fn new(schema: Schema) -> (r: Option<DirectArray>)
        requires
            all_declarable(schema@.mode, schema@.fields),
        ensures
            match r {
                Some(a) => addressable(schema@) && a.wf() && a@ == (ArrayModel {
                    schema: schema@,
                    slots: Map::empty(),
                    capacity: 0,
                }),
                None => !addressable(schema@),
            },
    {
        let size = match schema.fixed_record_size() {
            Some(n) => n,
            None => {
                return None;
            },
        };
        if size > usize::MAX as u64 {
            return None;
        }
        let a = DirectArray {
            schema,
            stride: size as usize,
            bytes: Vec::new(),
            present: Vec::new(),
            capacity: 0,
            live: 0,
        };
        proof {
            assert(all_slots(schema@.fields)) by {
                assert forall|i: int| 0 <= i < schema@.fields.len() implies crate::schema::slot_width(
                    (#[trigger] schema@.fields[i]).ty,
                ) is Some by {
                    assert(crate::schema::declarable(schema@.mode, schema@.fields[i]));
                }
            }
            assert(a@ =~= (ArrayModel { schema: schema@, slots: Map::empty(), capacity: 0 }));
            assert(a@.slots.dom() =~= Set::empty());
        }
        Some(a)
    }

    pub fn stride(&self) -> (n: usize)
        requires
            self.wf(),
        ensures
            n == layout_bytes(self@.schema.fields),
    {
        self.stride
    }

    /// How many records are there.
    pub fn live(&self) -> (n: u64)
        requires
            self.wf(),
        ensures
            n == self@.slots.dom().len(),
    {
        self.live
    }

    pub fn capacity(&self) -> (n: u64)
        ensures
            n == self@.capacity,
    {
        self.capacity
    }

    /// How much of the addressable range is occupied: records out of ids.
    pub fn density(&self) -> (r: (u64, u64))
        requires
            self.wf(),
        ensures
            r.0 == self@.slots.dom().len(),
            r.1 == self@.capacity,
    {
        (self.live, self.capacity)
    }

    pub fn memory_bytes(&self) -> (n: usize)
        requires
            self.wf(),
        ensures
            n == capped(
                capped(
                    self@.capacity * layout_bytes(self@.schema.fields) + capped(
                        self.words() as int * 8,
                    ),
                ) + vstd::layout::size_of::<DirectArray>() as int,
            ),
    {
        add_capped(
            add_capped(self.bytes.len(), mul_capped(self.present.len(), 8)),
            std::mem::size_of::<DirectArray>(),
        )
    }

    fn is_present(&self, id: u64) -> (r: bool)
        ensures
            r == bit(self.present@, id),
            r == self@.slots.dom().contains(id),
    {
        let w: u64 = id / 64;
        let b: u64 = id % 64;
        w < self.present.len() as u64 && self.present[w as usize] & (1u64 << b) != 0
    }

    fn set_present(&mut self, id: u64, on: bool)
        requires
            id < usize::MAX,
        ensures
            final(self).schema == old(self).schema,
            final(self).stride == old(self).stride,
            final(self).bytes == old(self).bytes,
            final(self).capacity == old(self).capacity,
            final(self).live == old(self).live,
            forall|other: u64| #[trigger]
                bit(final(self).present@, other) == if other == id {
                    on
                } else {
                    bit(old(self).present@, other)
                },
            final(self).words() == if (id / 64) >= old(self).words() {
                (id / 64 + 1) as nat
            } else {
                old(self).words()
            },
    {
        let w: usize = (id / 64) as usize;
        let b: u64 = id % 64;
        let ghost before = self.present@;
        if w >= self.present.len() {
            self.present.resize(w + 1, 0);
        }
        let ghost grown = self.present@;
        proof {
            assert forall|other: u64| #[trigger] bit(grown, other) == bit(before, other) by {
                let v = (other / 64) as int;
                lemma_bits(0, b, other % 64);
                if v < before.len() {
                    if grown.len() != before.len() {
                        assert(grown.subrange(0, before.len() as int)[v] == grown[v]);
                    }
                } else if v < grown.len() {
                    assert(cloned::<u64>(0u64, grown[v]));
                    assert(grown[v] == 0);
                }
            }
        }
        let v: u64 = self.present[w];
        let set: u64 = if on {
            v | (1u64 << b)
        } else {
            v & !(1u64 << b)
        };
        self.present.set(w, set);
        proof {
            assert forall|other: u64| #[trigger] bit(self.present@, other) == if other == id {
                on
            } else {
                bit(before, other)
            } by {
                assert(bit(grown, other) == bit(before, other));
                lemma_bits(v, b, other % 64);
                if other / 64 == id / 64 {
                    assert(other == 64 * (other / 64) + other % 64);
                    assert(id == 64 * (id / 64) + id % 64);
                }
            }
        }
    }

    fn grow_to(&mut self, id: u64)
        requires
            old(self).wf(),
            reachable(old(self)@.schema, id),
        ensures
            final(self).wf(),
            final(self).schema == old(self).schema,
            final(self).stride == old(self).stride,
            final(self).words() == old(self).words(),
            final(self)@ == (ArrayModel {
                capacity: if id >= old(self)@.capacity {
                    (id + 1) as u64
                } else {
                    old(self)@.capacity
                },
                ..old(self)@
            }),
            id < final(self).capacity,
    {
        if id + 1 > self.capacity {
            let ghost before = *self;
            proof {
                lemma_apart(self.stride as int, self.capacity as int, id + 1);
                assert((id + 1) * self.stride == self.stride * (id + 1)) by (nonlinear_arith);
                lemma_mul_inequality(self.capacity as int, id + 1, self.stride as int);
            }
            let needed: usize = (id as usize + 1) * self.stride;
            if needed > self.bytes.len() {
                self.bytes.resize(needed, 0);
            }
            self.capacity = id + 1;
            proof {
                assert(self.bytes@.len() == needed);
                assert(self.bytes@.subrange(0, before.bytes@.len() as int) =~= before.bytes@);
                assert forall|other: u64| #[trigger] bit(self.present@, other) implies place(
                    self.bytes@,
                    self.stride as int,
                    other as int,
                ) == place(before.bytes@, self.stride as int, other as int) by {
                    assert(bit(before.present@, other));
                    before.lemma_inside(other);
                    let head = self.bytes@.subrange(0, before.bytes@.len() as int);
                    assert(place(self.bytes@, self.stride as int, other as int) =~= place(
                        head,
                        self.stride as int,
                        other as int,
                    ));
                }
                assert(self@.slots =~= before@.slots);
            }
        }
    }

    /// Whether an id can be given a place in memory.
    pub fn can_reach(&self, id: u64) -> (r: bool)
        requires
            self.wf(),
        ensures
            r == reachable(self@.schema, id),
    {
        if id >= usize::MAX as u64 {
            return false;
        }
        let n: usize = id as usize + 1;
        match n.checked_mul(self.stride) {
            Some(_) => true,
            None => false,
        }
    }

    /// Store bytes. Refuses what is not exactly one record's size, which would
    /// run into the next.
    pub fn put_encoded(&mut self, id: u64, encoded: &[u8]) -> (r: Result<(), Error>)
        requires
            old(self).wf(),
            reachable(old(self)@.schema, id),
        ensures
            final(self).wf(),
            match r {
                Ok(_) => encoded@.len() == layout_bytes(old(self)@.schema.fields) && final(self)@
                    == placed(old(self)@, id, encoded@),
                Err(e) => encoded@.len() != layout_bytes(old(self)@.schema.fields) && e@
                    == ErrorModel::Corruption(
                    wrong_size(layout_bytes(old(self)@.schema.fields), encoded@.len()),
                ) && *final(self) == *old(self),
            },
    {
        if encoded.len() != self.stride {
            let mut s = "direct array stride is ".to_owned();
            s.append(dec(self.stride as u64).as_str());
            s.append(" but record encoded to ");
            s.append(dec(encoded.len() as u64).as_str());
            return Err(Error::Corruption(s));
        }
        let ghost start = self@;
        self.grow_to(id);
        let ghost grown = *self;
        proof {
            grown.lemma_inside(id);
        }
        let size: usize = self.bytes.len();
        let base: usize = id as usize * self.stride;
        let mut i: usize = 0;
        while i < self.stride
            invariant
                i <= self.stride,
                self.stride == encoded@.len(),
                base == id * self.stride,
                size == self.bytes@.len(),
                base + self.stride <= size,
                self.schema == grown.schema,
                self.stride == grown.stride,
                self.present == grown.present,
                self.capacity == grown.capacity,
                self.live == grown.live,
                self.bytes@.len() == grown.bytes@.len(),
                forall|k: int|
                    0 <= k < self.bytes@.len() ==> #[trigger] self.bytes@[k] == if base <= k < base
                        + i {
                        encoded@[k - base]
                    } else {
                        grown.bytes@[k]
                    },
            decreases self.stride - i,
        {
            self.bytes.set(base + i, encoded[i]);
            i += 1;
        }
        let was = self.is_present(id);
        if !was {
            proof {
                self.lemma_room(id);
            }
            self.live = self.live + 1;
        }
        self.set_present(id, true);
        proof {
            let st = self.stride as int;
            assert(place(self.bytes@, st, id as int) =~= encoded@);
            assert forall|other: u64| other != id && bit(self.present@, other) implies #[trigger] place(
                self.bytes@,
                st,
                other as int,
            ) == place(grown.bytes@, st, other as int) by {
                assert(bit(grown.present@, other));
                grown.lemma_inside(other);
                if other < id {
                    lemma_apart(st, other as int, id as int);
                } else {
                    lemma_apart(st, id as int, other as int);
                }
                assert(place(self.bytes@, st, other as int) =~= place(
                    grown.bytes@,
                    st,
                    other as int,
                ));
            }
            assert(self@.slots =~= grown@.slots.insert(id, encoded@));
            assert(self@.slots.dom() =~= grown@.slots.dom().insert(id));
            assert(self@ =~= placed(start, id, encoded@));
        }
        Ok(())
    }

    /// There is room to count one more.
    proof fn lemma_room(&self, id: u64)
        requires
            self.capacity <= usize::MAX,
            id < self.capacity,
            !bit(self.present@, id),
            forall|other: u64| #[trigger] bit(self.present@, other) ==> other < self.capacity,
            self@.slots.dom().finite(),
            self.live == self@.slots.dom().len(),
        ensures
            self.live < self.capacity,
    {
        let dom = self@.slots.dom();
        let range = vstd::set_lib::set_int_range(0, self.capacity as int);
        vstd::set_lib::lemma_int_range(0, self.capacity as int);
        let f = |k: u64| k as int;
        assert(dom.map(f).finite()) by {
            dom.lemma_map_finite(f);
        }
        vstd::set_lib::lemma_map_size(dom, dom.map(f), f);
        assert(dom.map(f).subset_of(range.remove(id as int))) by {
            assert forall|x: int| dom.map(f).contains(x) implies range.remove(
                id as int,
            ).contains(x) by {
                let k = choose|k: u64| dom.contains(k) && f(k) == x;
                assert(bit(self.present@, k));
            }
        }
        vstd::set_lib::lemma_len_subset(dom.map(f), range.remove(id as int));
    }
}

/// The complaint about a record that the schema does not accept.
pub open spec fn misfit() -> Seq<char> {
    "record does not fit the fixed layout"@
}

/// The complaint about bytes that are of no record.
pub open spec fn undecodable() -> Seq<char> {
    "direct array slot does not decode"@
}

/// A record that a fixed schema accepts has values its slots hold.
pub proof fn lemma_accepted_holds(s: SchemaModel, r: RecordModel)
    requires
        s.mode == SchemaMode::Fixed,
        accepts(s, r),
    ensures
        all_hold(s.fields, r),
{
    assert forall|i: int| 0 <= i < s.fields.len() implies (field_of(
        r,
        (#[trigger] s.fields[i]).name,
    ) matches Some(v) ==> crate::schema::holds(s.fields[i].ty, v)) by {
        assert(satisfied(s.fields[i], r));
    }
}

/// What an array of rows holds, put in turn. Nothing where a record is refused.
pub open spec fn array_of(s: SchemaModel, rows: RowsModel) -> Option<ArrayModel>
    decreases rows.len(),
{
    if rows.len() == 0 {
        Some(ArrayModel { schema: s, slots: Map::empty(), capacity: 0 })
    } else {
        match array_of(s, rows.drop_last()) {
            Some(a) => if accepts(s, rows.last().1) {
                Some(placed(a, rows.last().0, record_bytes(s.fields, rows.last().1)))
            } else {
                None
            },
            None => None,
        }
    }
}

/// Whether this is what reading a record comes to.
pub open spec fn reads_record(a: ArrayModel, id: u64, r: Result<Option<Record>, Error>) -> bool {
    match r {
        Ok(None) => !a.slots.dom().contains(id),
        Ok(Some(rec)) => {
            &&& a.slots.dom().contains(id)
            &&& readable(a.schema.fields, a.slots[id])
            &&& forall|name: Seq<char>| #[trigger]
                field_of(rec.model(), name) == field_read(
                    a.schema.fields,
                    a.slots[id],
                    name,
                )->Some_0
        },
        Err(e) => {
            &&& a.slots.dom().contains(id)
            &&& !readable(a.schema.fields, a.slots[id])
            &&& e@ == ErrorModel::Corruption(undecodable())
        },
    }
}

/// Whether this is what reading one field of a record comes to.
pub open spec fn reads_field(
    a: ArrayModel,
    id: u64,
    field: Seq<char>,
    r: Result<Option<Value>, Error>,
) -> bool {
    if !a.slots.dom().contains(id) {
        r matches Ok(v) && v is None
    } else {
        match field_read(a.schema.fields, a.slots[id], field) {
            Some(Some(m)) => r matches Ok(Some(v)) && v.model() == m,
            Some(None) => r matches Ok(v) && v is None,
            None => r matches Err(e) && e@ == ErrorModel::Corruption(undecodable()),
        }
    }
}

impl DirectArray {
    /// Whether there is a record of an id.
    pub fn contains(&self, id: u64) -> (r: bool)
        requires
            self.wf(),
        ensures
            r == self@.slots.dom().contains(id),
    {
        self.is_present(id)
    }

    /// The bytes at a place.
    fn slice_of(&self, id: u64) -> (s: &[u8])
        requires
            self.wf(),
            self@.slots.dom().contains(id),
        ensures
            s@ == self@.slots[id],
            s@.len() == layout_bytes(self@.schema.fields),
    {
        proof {
            assert(bit(self.present@, id));
            self.lemma_inside(id);
        }
        let size: usize = self.bytes.len();
        let base: usize = id as usize * self.stride;
        slice_subrange(self.bytes.as_slice(), base, base + self.stride)
    }

    /// The record of an id, if it is there. Refused where its bytes are of no
    /// record.
    pub fn get(&self, id: u64) -> (r: Result<Option<Record>, Error>)
        requires
            self.wf(),
        ensures
            reads_record(self@, id, r),
    {
        if !self.is_present(id) {
            return Ok(None);
        }
        match decode_record(self.schema.fields(), self.slice_of(id)) {
            Some(rec) => Ok(Some(rec)),
            None => Err(Error::Corruption("direct array slot does not decode".to_owned())),
        }
    }

    /// One field of one record, without reading the others. Refused where its
    /// bytes are of no value.
    pub fn field_at(&self, id: u64, field: &str) -> (r: Result<Option<Value>, Error>)
        requires
            self.wf(),
        ensures
            reads_field(self@, id, field@, r),
    {
        if !self.is_present(id) {
            return Ok(None);
        }
        match decode_field(self.schema.fields(), self.slice_of(id), field) {
            Some(v) => Ok(v),
            None => Err(Error::Corruption("direct array slot does not decode".to_owned())),
        }
    }

    /// Store a record. Refused where the schema does not accept it.
    pub fn put(&mut self, id: u64, rec: &Record) -> (r: Result<(), Error>)
        requires
            old(self).wf(),
            reachable(old(self)@.schema, id),
        ensures
            final(self).wf(),
            match r {
                Ok(_) => accepts(old(self)@.schema, rec.model()) && final(self)@ == placed(
                    old(self)@,
                    id,
                    record_bytes(old(self)@.schema.fields, rec.model()),
                ),
                Err(e) => !accepts(old(self)@.schema, rec.model()) && e@
                    == ErrorModel::InvalidSchema(misfit()) && *final(self) == *old(self),
            },
    {
        if !self.schema.validate_record(rec) {
            return Err(Error::InvalidSchema("record does not fit the fixed layout".to_owned()));
        }
        proof {
            lemma_accepted_holds(self.schema@, rec.model());
            lemma_record_bytes(self.schema@.fields, rec.model());
        }
        let encoded = encode_record(self.schema.fields(), rec);
        self.put_encoded(id, encoded.as_slice())
    }

    /// Forget a record, if it is there.
    pub fn remove(&mut self, id: u64)
        requires
            old(self).wf(),
        ensures
            final(self).wf(),
            final(self)@ == (ArrayModel { slots: old(self)@.slots.remove(id), ..old(self)@ }),
    {
        let ghost before = *self;
        if self.is_present(id) {
            proof {
                assert(bit(self.present@, id));
                assert(self@.slots.dom().len() > 0) by {
                    if self@.slots.dom().len() == 0 {
                        assert(self@.slots.dom() =~= Set::empty());
                    }
                }
            }
            self.live = self.live - 1;
            self.set_present(id, false);
            proof {
                assert forall|other: u64| #[trigger] bit(self.present@, other) implies bit(
                    before.present@,
                    other,
                ) by {}
                assert(self@.slots =~= before@.slots.remove(id));
                assert(self@.slots.dom() =~= before@.slots.dom().remove(id));
            }
        } else {
            assert(self@.slots =~= before@.slots.remove(id));
        }
    }

    /// Build again from the records themselves. Nothing where the schema has no
    /// constant size; refused where it does not accept a record.
    pub fn rebuild(schema: Schema, rows: &Rows) -> (r: Result<Option<DirectArray>, Error>)
        requires
            all_declarable(schema@.mode, schema@.fields),
            addressable(schema@) ==> forall|i: int|
                0 <= i < rows@.len() ==> reachable(schema@, (#[trigger] rows@[i]).0),
        ensures
            if !addressable(schema@) {
                r matches Ok(a) && a is None
            } else {
                match array_of(schema@, rows_model(rows@)) {
                    Some(m) => r matches Ok(Some(a)) && a.wf() && a@ == m,
                    None => r matches Err(e) && e@ == ErrorModel::InvalidSchema(misfit()),
                }
            },
    {
        let ghost s = schema@;
        let ghost all = rows_model(rows@);
        let mut a = match DirectArray::new(schema) {
            Some(a) => a,
            None => {
                return Ok(None);
            },
        };
        let mut i: usize = 0;
        assert(all.take(0) =~= Seq::empty());
        while i < rows.len()
            invariant
                i <= rows@.len(),
                all == rows_model(rows@),
                s == schema@,
                addressable(s),
                a.wf(),
                array_of(s, all.take(i as int)) == Some(a@),
                a@.schema == s,
                forall|k: int| 0 <= k < rows@.len() ==> reachable(s, (#[trigger] rows@[k]).0),
            decreases rows.len() - i,
        {
            assert(all.take(i + 1).drop_last() =~= all.take(i as int));
            assert(all.take(i + 1).last() == all[i as int]);
            match a.put(rows[i].0, &rows[i].1) {
                Ok(_) => {},
                Err(e) => {
                    proof {
                        lemma_refused(s, all, i + 1);
                    }
                    return Err(e);
                },
            }
            i += 1;
        }
        assert(all.take(i as int) =~= all);
        Ok(Some(a))
    }
}

/// Once a record is refused, so is the whole.
proof fn lemma_refused(s: SchemaModel, rows: RowsModel, n: int)
    requires
        0 <= n <= rows.len(),
        array_of(s, rows.take(n)) is None,
    ensures
        array_of(s, rows) is None,
    decreases rows.len() - n,
{
    if n < rows.len() {
        assert(rows.take(n + 1).drop_last() =~= rows.take(n));
        lemma_refused(s, rows, n + 1);
    } else {
        assert(rows.take(n) =~= rows);
    }
}

/// A record put reads back, field by field, as its slots store it.
pub proof fn a_record_put_reads_back(a: ArrayModel, id: u64, r: RecordModel, name: Seq<char>)
    requires
        addressable(a.schema),
        accepts(a.schema, r),
    ensures
        ({
            let after = placed(a, id, record_bytes(a.schema.fields, r));
            &&& after.slots.dom().contains(id)
            &&& readable(a.schema.fields, after.slots[id])
            &&& field_read(a.schema.fields, after.slots[id], name) == Some(
                match crate::layout::declared_at(a.schema.fields, name) {
                    Some(i) => crate::layout::stored(a.schema.fields[i].ty, field_of(r, name)),
                    None => None,
                },
            )
        }),
{
    lemma_accepted_holds(a.schema, r);
    crate::layout::a_record_reads_back(a.schema.fields, r, name);
}

/// A write disturbs no other record.
pub proof fn a_neighbour_is_not_disturbed(a: ArrayModel, id: u64, bytes: Seq<u8>, other: u64)
    requires
        other != id,
    ensures
        placed(a, id, bytes).slots.dom().contains(other) == a.slots.dom().contains(other),
        a.slots.dom().contains(other) ==> placed(a, id, bytes).slots[other] == a.slots[other],
{
}

/// An array is made of rows where its schema accepts every one of them, and has a place for
/// each of their ids and for no other.
pub proof fn an_array_is_of_every_row(s: SchemaModel, rows: RowsModel)
    ensures
        array_of(s, rows) is Some <==> forall|i: int|
            0 <= i < rows.len() ==> accepts(s, (#[trigger] rows[i]).1),
        array_of(s, rows) matches Some(a) ==> a.schema == s && forall|id: u64| #[trigger]
            a.slots.dom().contains(id) <==> exists|i: int|
                0 <= i < rows.len() && (#[trigger] rows[i]).0 == id,
    decreases rows.len(),
{
    if rows.len() > 0 {
        let rest = rows.drop_last();
        an_array_is_of_every_row(s, rest);
        assert(rows[rows.len() - 1] == rows.last());
        if array_of(s, rows) is Some {
            assert forall|i: int| 0 <= i < rows.len() implies accepts(s, (#[trigger] rows[i]).1) by {
                if i < rest.len() {
                    assert(rest[i] == rows[i]);
                }
            }
            let a = array_of(s, rows)->Some_0;
            let before = array_of(s, rest)->Some_0;
            assert forall|id: u64| #[trigger] a.slots.dom().contains(id) <==> exists|i: int|
                0 <= i < rows.len() && (#[trigger] rows[i]).0 == id by {
                assert(a.slots.dom().contains(id) <==> before.slots.dom().contains(id) || id
                    == rows.last().0);
                if before.slots.dom().contains(id) {
                    let i = choose|i: int| 0 <= i < rest.len() && (#[trigger] rest[i]).0 == id;
                    assert(rows[i].0 == id);
                }
                if exists|i: int| 0 <= i < rows.len() && (#[trigger] rows[i]).0 == id {
                    let i = choose|i: int| 0 <= i < rows.len() && (#[trigger] rows[i]).0 == id;
                    if i < rest.len() {
                        assert(rest[i].0 == id);
                    }
                }
            }
        }
        if forall|i: int| 0 <= i < rows.len() ==> accepts(s, (#[trigger] rows[i]).1) {
            assert forall|i: int| 0 <= i < rest.len() implies accepts(s, (#[trigger] rest[i]).1) by {
                assert(rest[i] == rows[i]);
            }
        }
    }
}

} // verus!
