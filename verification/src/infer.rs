//! Schema inference: the most rigid schema a sample of records supports.
//!
//! A field is frozen only if every sampled record agreed about it. Anything
//! mixed or nested falls out, and the result degrades to `Declared` rather than
//! to a `Fixed` schema that would reject real data.

use vstd::prelude::*;
use vstd::string::*;
use vstd::utf8::*;
use crate::record::{field_of, lemma_field_is_found, record_models, Record, RecordModel};
use crate::schema::{
    accepts, all_declarable, declarable, declares, dup_fields, field_models, holds, prefix_bytes,
    satisfied, slot_width, FieldDef, FieldModel, FieldType, Schema, SchemaMode, SchemaModel,
    MAX_WIDTH,
};
use crate::text::{
    dec_text, insert_sorted, join, joined, lemma_sorted_set, push_dec, sorted_set, texts,
};
use crate::value::{Value, ValueModel};

verus! {

/// Extra bytes allowed beyond the longest value seen: without headroom the
/// first record longer than anything sampled would be rejected.
pub const DEFAULT_HEADROOM: usize = 16;

/// The kinds of value a field is seen to hold.
#[derive(Clone, Copy, Debug, PartialEq, Eq, Structural)]
pub enum Kind {
    Bool,
    Int,
    Uint,
    Float,
    Text,
    Bytes,
    Nested,
}

/// The kind of a value. Null has none.
pub open spec fn kind_of(v: ValueModel) -> Option<Kind> {
    match v {
        ValueModel::Null => None,
        ValueModel::Bool(_) => Some(Kind::Bool),
        ValueModel::I64(_) => Some(Kind::Int),
        ValueModel::U64(_) => Some(Kind::Uint),
        ValueModel::F64(_) => Some(Kind::Float),
        ValueModel::Str(_) => Some(Kind::Text),
        ValueModel::Bytes(_) => Some(Kind::Bytes),
        ValueModel::List(_) => Some(Kind::Nested),
    }
}

/// The kind a record holds under a name.
pub open spec fn kind_in(r: RecordModel, name: Seq<char>) -> Option<Kind> {
    match field_of(r, name) {
        None => None,
        Some(v) => kind_of(v),
    }
}

/// In how many records `name` holds a value of kind `k`.
pub open spec fn seen(recs: Seq<RecordModel>, name: Seq<char>, k: Kind) -> nat
    decreases recs.len(),
{
    if recs.len() == 0 {
        0
    } else {
        seen(recs.drop_last(), name, k) + if kind_in(recs.last(), name) == Some(k) {
            1nat
        } else {
            0
        }
    }
}

/// In how many records `name` holds a value.
pub open spec fn present(recs: Seq<RecordModel>, name: Seq<char>) -> nat
    decreases recs.len(),
{
    if recs.len() == 0 {
        0
    } else {
        present(recs.drop_last(), name) + if kind_in(recs.last(), name) is Some {
            1nat
        } else {
            0
        }
    }
}

/// How many bytes of content a value has.
pub open spec fn content_len(v: ValueModel) -> nat {
    match v {
        ValueModel::Str(s) => encode_utf8(s).len(),
        ValueModel::Bytes(b) => b.len(),
        _ => 0,
    }
}

/// The longest content seen under `name`.
pub open spec fn longest(recs: Seq<RecordModel>, name: Seq<char>) -> nat
    decreases recs.len(),
{
    if recs.len() == 0 {
        0
    } else {
        let before = longest(recs.drop_last(), name);
        match field_of(recs.last(), name) {
            Some(v) if content_len(v) > before => content_len(v),
            _ => before,
        }
    }
}

/// Slot width for a content length, the inline length included. A width past
/// the widest slot stays past it.
pub open spec fn width_of(content: nat) -> u32 {
    let c = if content == 0 {
        1int
    } else {
        content as int
    };
    let w = c + prefix_bytes(c + 4) + 1;
    if w <= MAX_WIDTH {
        w as u32
    } else {
        u32::MAX
    }
}

/// The single type a field always held, if there is one. Integers and unsigned
/// integers together widen to signed, which accepts both.
pub open spec fn settled(
    recs: Seq<RecordModel>,
    name: Seq<char>,
    headroom: nat,
) -> Option<FieldType> {
    let bools = seen(recs, name, Kind::Bool) > 0;
    let ints = seen(recs, name, Kind::Int) > 0;
    let uints = seen(recs, name, Kind::Uint) > 0;
    let floats = seen(recs, name, Kind::Float) > 0;
    let strings = seen(recs, name, Kind::Text) > 0;
    let bytes = seen(recs, name, Kind::Bytes) > 0;
    if seen(recs, name, Kind::Nested) > 0 {
        None
    } else if bools && !ints && !uints && !floats && !strings && !bytes {
        Some(FieldType::Bool)
    } else if (ints || uints) && !bools && !floats && !strings && !bytes {
        if ints {
            Some(FieldType::I64)
        } else {
            Some(FieldType::U64)
        }
    } else if floats && !bools && !ints && !uints && !strings && !bytes {
        Some(FieldType::F64)
    } else if strings && !bools && !ints && !uints && !floats && !bytes {
        Some(FieldType::Char(width_of(longest(recs, name) + headroom)))
    } else if bytes && !bools && !ints && !uints && !floats && !strings {
        Some(FieldType::FixedBytes(width_of(longest(recs, name) + headroom)))
    } else {
        None
    }
}

/// Why a field could not be frozen.
pub open spec fn refusal(recs: Seq<RecordModel>, name: Seq<char>) -> Seq<char> {
    if seen(recs, name, Kind::Nested) > 0 {
        "holds nested values"@
    } else {
        "holds more than one type"@
    }
}

/// The names of a record, added in order to `acc`.
pub open spec fn with_names(acc: Seq<Seq<char>>, r: RecordModel) -> Seq<Seq<char>> {
    acc + r.map_values(|e: (Seq<char>, ValueModel)| e.0)
}

/// Every name that occurs.
pub open spec fn names_in(recs: Seq<RecordModel>) -> Seq<Seq<char>>
    decreases recs.len(),
{
    if recs.len() == 0 {
        Seq::empty()
    } else {
        with_names(names_in(recs.drop_last()), recs.last())
    }
}

/// Every name that occurs, in order, each once.
pub open spec fn field_names(recs: Seq<RecordModel>) -> Seq<Seq<char>> {
    sorted_set(names_in(recs))
}

/// What was concluded about a list of fields.
pub struct Conclusion {
    pub fields: Seq<FieldModel>,
    pub universal: Seq<Seq<char>>,
    pub optional: Seq<Seq<char>>,
    pub rejected: Seq<(Seq<char>, Seq<char>)>,
}

/// What is concluded about the fields named `names`, one after the other.
pub open spec fn concluded(
    recs: Seq<RecordModel>,
    names: Seq<Seq<char>>,
    headroom: nat,
) -> Conclusion
    decreases names.len(),
{
    if names.len() == 0 {
        Conclusion {
            fields: Seq::empty(),
            universal: Seq::empty(),
            optional: Seq::empty(),
            rejected: Seq::empty(),
        }
    } else {
        let c = concluded(recs, names.drop_last(), headroom);
        let name = names.last();
        match settled(recs, name, headroom) {
            Some(ty) => {
                let always = present(recs, name) == recs.len();
                let fields = c.fields.push(FieldModel { name, ty, required: always });
                if always {
                    Conclusion { fields, universal: c.universal.push(name), ..c }
                } else {
                    Conclusion { fields, optional: c.optional.push(name), ..c }
                }
            },
            None => Conclusion { rejected: c.rejected.push((name, refusal(recs, name))), ..c },
        }
    }
}

/// The schema the conclusion amounts to. A fixed layout needs every field
/// frozen; a width the type system rejects leaves nothing declared.
pub open spec fn schema_for(c: Conclusion) -> SchemaModel {
    let dynamic = SchemaModel { mode: SchemaMode::Dynamic, fields: Seq::empty() };
    if c.fields.len() == 0 {
        dynamic
    } else if c.rejected.len() == 0 && all_declarable(SchemaMode::Fixed, c.fields) {
        SchemaModel { mode: SchemaMode::Fixed, fields: c.fields }
    } else if all_declarable(SchemaMode::Declared, c.fields) {
        SchemaModel { mode: SchemaMode::Declared, fields: c.fields }
    } else {
        dynamic
    }
}

/// What was seen in one field across a sample.
struct FieldEvidence {
    present: usize,
    bools: usize,
    ints: usize,
    uints: usize,
    floats: usize,
    strings: usize,
    bytes: usize,
    other: usize,
    max_len: usize,
}

impl FieldEvidence {
    spec fn of(&self, recs: Seq<RecordModel>, name: Seq<char>) -> bool {
        &&& self.present == present(recs, name)
        &&& self.bools == seen(recs, name, Kind::Bool)
        &&& self.ints == seen(recs, name, Kind::Int)
        &&& self.uints == seen(recs, name, Kind::Uint)
        &&& self.floats == seen(recs, name, Kind::Float)
        &&& self.strings == seen(recs, name, Kind::Text)
        &&& self.bytes == seen(recs, name, Kind::Bytes)
        &&& self.other == seen(recs, name, Kind::Nested)
        &&& self.max_len == longest(recs, name)
    }

    spec fn below(&self, n: int) -> bool {
        &&& self.present <= n
        &&& self.bools <= n
        &&& self.ints <= n
        &&& self.uints <= n
        &&& self.floats <= n
        &&& self.strings <= n
        &&& self.bytes <= n
        &&& self.other <= n
    }

    fn nothing() -> (e: FieldEvidence)
        ensures
            forall|name: Seq<char>| #[trigger] e.of(Seq::empty(), name),
            e.below(0),
    {
        FieldEvidence {
            present: 0,
            bools: 0,
            ints: 0,
            uints: 0,
            floats: 0,
            strings: 0,
            bytes: 0,
            other: 0,
            max_len: 0,
        }
    }

    fn observe(&mut self, v: &Value, Ghost(recs): Ghost<Seq<RecordModel>>, Ghost(r): Ghost<
        RecordModel,
    >, Ghost(name): Ghost<Seq<char>>)
        requires
            old(self).of(recs, name),
            old(self).below(recs.len() as int),
            recs.len() < usize::MAX,
            field_of(r, name) == Some(v.model()),
        ensures
            final(self).of(recs.push(r), name),
            final(self).below((recs.len() + 1) as int),
    {
        proof {
            assert(recs.push(r).drop_last() =~= recs);
        }
        match v {
            Value::Null => {},
            Value::Bool(_) => {
                self.present += 1;
                self.bools += 1;
            },
            Value::I64(_) => {
                self.present += 1;
                self.ints += 1;
            },
            Value::U64(_) => {
                self.present += 1;
                self.uints += 1;
            },
            Value::F64(_) => {
                self.present += 1;
                self.floats += 1;
            },
            Value::Str(s) => {
                self.present += 1;
                self.strings += 1;
                let n: usize = s.as_str().as_bytes().len();
                if n > self.max_len {
                    self.max_len = n;
                }
            },
            Value::Bytes(b) => {
                self.present += 1;
                self.bytes += 1;
                if b.len() > self.max_len {
                    self.max_len = b.len();
                }
            },
            Value::List(_) => {
                self.present += 1;
                self.other += 1;
            },
        }
    }

    /// The single type this field always held, if there is one.
    fn settled_type(&self, headroom: usize, Ghost(recs): Ghost<Seq<RecordModel>>, Ghost(
        name,
    ): Ghost<Seq<char>>) -> (r: Option<FieldType>)
        requires
            self.of(recs, name),
        ensures
            r == settled(recs, name, headroom as nat),
    {
        if self.other > 0 {
            return None;
        }
        let bools = self.bools > 0;
        let ints = self.ints > 0;
        let uints = self.uints > 0;
        let floats = self.floats > 0;
        let strings = self.strings > 0;
        let bytes = self.bytes > 0;
        if bools && !ints && !uints && !floats && !strings && !bytes {
            Some(FieldType::Bool)
        } else if (ints || uints) && !bools && !floats && !strings && !bytes {
            if ints {
                Some(FieldType::I64)
            } else {
                Some(FieldType::U64)
            }
        } else if floats && !bools && !ints && !uints && !strings && !bytes {
            Some(FieldType::F64)
        } else if strings && !bools && !ints && !uints && !floats && !bytes {
            Some(FieldType::Char(width_for(self.max_len, headroom)))
        } else if bytes && !bools && !ints && !uints && !floats && !strings {
            Some(FieldType::FixedBytes(width_for(self.max_len, headroom)))
        } else {
            None
        }
    }
}

/// Slot width for a given content length and headroom, allowing for the inline
/// length.
fn width_for(content: usize, headroom: usize) -> (w: u32)
    ensures
        w == width_of((content + headroom) as nat),
{
    let most: usize = 0xffff_fff9;
    if content > most || headroom > most - content {
        return u32::MAX;
    }
    let total: usize = content + headroom;
    let c: u32 = if total == 0 { 1 } else { total as u32 };
    let p: u32 = FieldType::length_prefix_bytes(c + 4);
    let w: u32 = c + p + 1;
    if w <= MAX_WIDTH {
        w
    } else {
        u32::MAX
    }
}

/// What inference concluded, and what it would cost.
#[derive(Debug, PartialEq, Eq)]
pub struct InferredSchema {
    pub schema: Schema,
    /// Fields present in every sampled record.
    pub universal_fields: Vec<String>,
    /// Fields seen in some records but not all; nullable in the result.
    pub optional_fields: Vec<String>,
    /// Fields that could not be frozen, and why.
    pub rejected: Vec<(String, String)>,
    pub records_sampled: usize,
}

pub open spec fn rejections(s: Seq<(String, String)>) -> Seq<(Seq<char>, Seq<char>)> {
    s.map_values(|p: (String, String)| (p.0@, p.1@))
}

fn collect_names(records: &Vec<Record>) -> (names: Vec<String>)
    ensures
        texts(names@) == field_names(record_models(records@)),
{
    let ghost recs = record_models(records@);
    let mut names: Vec<String> = Vec::new();
    let mut i: usize = 0;
    assert(recs.take(0) =~= Seq::empty());
    assert(texts(names@) =~= field_names(recs.take(0)));
    while i < records.len()
        invariant
            i <= records.len(),
            recs == record_models(records@),
            texts(names@) == field_names(recs.take(i as int)),
        decreases records.len() - i,
    {
        let rec = &records[i];
        let ghost r = rec.model();
        let ghost before = names_in(recs.take(i as int));
        let ghost own = r.map_values(|e: (Seq<char>, ValueModel)| e.0);
        assert(before + own.take(0) =~= before);
        let mut k: usize = 0;
        while k < rec.len()
            invariant
                k <= r.len(),
                r == rec.model(),
                own == r.map_values(|e: (Seq<char>, ValueModel)| e.0),
                texts(names@) == sorted_set(before + own.take(k as int)),
            decreases r.len() - k,
        {
            let ghost grown = before + own.take(k + 1);
            assert(grown.drop_last() =~= before + own.take(k as int));
            insert_sorted(&mut names, rec.name_at(k));
            k += 1;
        }
        assert(own.take(k as int) =~= own);
        assert(recs.take(i + 1).drop_last() =~= recs.take(i as int));
        i += 1;
    }
    assert(recs.take(i as int) =~= recs);
    names
}

fn weigh(records: &Vec<Record>, name: &str) -> (e: FieldEvidence)
    ensures
        e.of(record_models(records@), name@),
        e.below(records@.len() as int),
{
    let ghost recs = record_models(records@);
    let mut e = FieldEvidence::nothing();
    let mut i: usize = 0;
    assert(recs.take(0) =~= Seq::empty());
    while i < records.len()
        invariant
            i <= records.len(),
            recs == record_models(records@),
            e.of(recs.take(i as int), name@),
            e.below(i as int),
        decreases records.len() - i,
    {
        let ghost done = recs.take(i as int);
        let ghost r = records@[i as int].model();
        assert(recs.take(i + 1) =~= done.push(r));
        match records[i].get(name) {
            Some(v) => {
                e.observe(v, Ghost(done), Ghost(r), Ghost(name@));
            },
            None => {
                assert(done.push(r).drop_last() =~= done);
            },
        }
        i += 1;
    }
    assert(recs.take(i as int) =~= recs);
    e
}

/// Whether this is what a sample supports: the schema, which fields are in every
/// record and which in some, those that could not be frozen and why, and how many
/// records there were.
pub open spec fn inferred_from(out: InferredSchema, recs: Seq<RecordModel>, headroom: nat) -> bool {
    let c = concluded(recs, field_names(recs), headroom);
    &&& out.schema@ == schema_for(c)
    &&& texts(out.universal_fields@) == c.universal
    &&& texts(out.optional_fields@) == c.optional
    &&& rejections(out.rejected@) == c.rejected
    &&& out.records_sampled == recs.len()
}

/// Infer the most rigid schema a sample supports.
pub fn infer(records: &Vec<Record>, headroom: usize) -> (out: InferredSchema)
    ensures
        inferred_from(out, record_models(records@), headroom as nat),
        forall|i: int|
            0 <= i < records@.len() ==> accepts(out.schema@, (#[trigger] records@[i]).model()),
{
    let ghost recs = record_models(records@);
    let ghost room = headroom as nat;
    let names = collect_names(records);
    let ghost all = field_names(recs);
    let mut fields: Vec<FieldDef> = Vec::new();
    let mut universal: Vec<String> = Vec::new();
    let mut optional: Vec<String> = Vec::new();
    let mut rejected: Vec<(String, String)> = Vec::new();
    let mut i: usize = 0;
    proof {
        let c = concluded(recs, all.take(0), room);
        assert(field_models(fields@) =~= c.fields);
        assert(texts(universal@) =~= c.universal);
        assert(texts(optional@) =~= c.optional);
        assert(rejections(rejected@) =~= c.rejected);
    }
    while i < names.len()
        invariant
            i <= names.len(),
            recs == record_models(records@),
            room == headroom,
            all == texts(names@),
            ({
                let c = concluded(recs, all.take(i as int), room);
                &&& field_models(fields@) == c.fields
                &&& texts(universal@) == c.universal
                &&& texts(optional@) == c.optional
                &&& rejections(rejected@) == c.rejected
            }),
        decreases names.len() - i,
    {
        let ghost name = all[i as int];
        assert(all.take(i + 1).drop_last() =~= all.take(i as int));
        let ghost c = concluded(recs, all.take(i as int), room);
        let e = weigh(records, names[i].as_str());
        match e.settled_type(headroom, Ghost(recs), Ghost(name)) {
            Some(ty) => {
                let always = e.present == records.len();
                let ghost held = fields@;
                let def = FieldDef { name: names[i].clone(), ty, required: always };
                let ghost m = def@;
                fields.push(def);
                assert(field_models(fields@) =~= field_models(held).push(m));
                if always {
                    let ghost held = universal@;
                    universal.push(names[i].clone());
                    assert(texts(universal@) =~= texts(held).push(name));
                } else {
                    let ghost held = optional@;
                    optional.push(names[i].clone());
                    assert(texts(optional@) =~= texts(held).push(name));
                }
            },
            None => {
                let ghost held = rejected@;
                let why = if e.other > 0 {
                    "holds nested values".to_owned()
                } else {
                    "holds more than one type".to_owned()
                };
                rejected.push((names[i].clone(), why));
                assert(rejections(rejected@) =~= rejections(held).push((name, refusal(recs, name))));
            },
        }
        i += 1;
    }
    assert(all.take(i as int) =~= all);
    let ghost c = concluded(recs, all, room);
    assert(field_models(fields@).len() == fields@.len());
    assert(rejections(rejected@).len() == rejected@.len());
    let schema = if fields.len() == 0 {
        Schema::dynamic()
    } else {
        let fixed = if rejected.len() == 0 {
            match Schema::new(SchemaMode::Fixed, dup_fields(&fields)) {
                Ok(s) => Some(s),
                Err(_) => None,
            }
        } else {
            None
        };
        match fixed {
            Some(s) => s,
            None => match Schema::new(SchemaMode::Declared, fields) {
                Ok(s) => s,
                Err(_) => Schema::dynamic(),
            },
        }
    };
    proof {
        assert forall|k: int| 0 <= k < records@.len() implies accepts(
            schema@,
            (#[trigger] records@[k]).model(),
        ) by {
            assert(recs[k] == records@[k].model());
            lemma_sample_accepted(recs, room, k);
        }
    }
    InferredSchema {
        schema,
        universal_fields: universal,
        optional_fields: optional,
        rejected,
        records_sampled: records.len(),
    }
}

// -- nothing that was sampled is rejected ------------------------------------

proof fn lemma_seen_positive(recs: Seq<RecordModel>, name: Seq<char>, k: int)
    requires
        0 <= k < recs.len(),
        kind_in(recs[k], name) is Some,
    ensures
        seen(recs, name, kind_in(recs[k], name)->0) > 0,
    decreases recs.len(),
{
    if k < recs.len() - 1 {
        assert(recs.drop_last()[k] == recs[k]);
        lemma_seen_positive(recs.drop_last(), name, k);
    }
}

proof fn lemma_longest_bounds(recs: Seq<RecordModel>, name: Seq<char>, k: int)
    requires
        0 <= k < recs.len(),
    ensures
        field_of(recs[k], name) matches Some(v) ==> content_len(v) <= longest(recs, name),
    decreases recs.len(),
{
    if k < recs.len() - 1 {
        assert(recs.drop_last()[k] == recs[k]);
        lemma_longest_bounds(recs.drop_last(), name, k);
    }
}

proof fn lemma_present_everywhere(recs: Seq<RecordModel>, name: Seq<char>, k: int)
    requires
        0 <= k < recs.len(),
    ensures
        present(recs, name) <= recs.len(),
        present(recs, name) == recs.len() ==> kind_in(recs[k], name) is Some,
    decreases recs.len(),
{
    if recs.len() > 1 {
        lemma_present_everywhere(recs.drop_last(), name, if k < recs.len() - 1 { k } else { 0 });
        if k < recs.len() - 1 {
            assert(recs.drop_last()[k] == recs[k]);
        }
    } else {
        assert(present(recs.drop_last(), name) == 0);
    }
}

/// A width leaves room for the content it was made for.
pub proof fn lemma_width_fits(content: nat)
    requires
        width_of(content) <= MAX_WIDTH,
    ensures
        content + prefix_bytes(width_of(content) as int) <= width_of(content),
{
}

/// A settled field holds whatever was seen in it, and anything not longer than
/// the longest content seen by more than the headroom.
pub proof fn headroom_is_honoured(
    recs: Seq<RecordModel>,
    name: Seq<char>,
    headroom: nat,
    v: ValueModel,
)
    requires
        settled(recs, name, headroom) matches Some(ty) && (slot_width(ty) matches Some(w) ==> w
            <= MAX_WIDTH),
        kind_of(v) matches Some(k) && seen(recs, name, k) > 0,
        content_len(v) <= longest(recs, name) + headroom,
    ensures
        holds(settled(recs, name, headroom)->0, v),
{
    let n = longest(recs, name) + headroom;
    match settled(recs, name, headroom)->0 {
        FieldType::Char(w) => {
            lemma_width_fits(n);
        },
        FieldType::FixedBytes(w) => {
            lemma_width_fits(n);
        },
        _ => {},
    }
}

proof fn lemma_concluded(
    recs: Seq<RecordModel>,
    names: Seq<Seq<char>>,
    headroom: nat,
    i: int,
)
    requires
        0 <= i < concluded(recs, names, headroom).fields.len(),
    ensures
        ({
            let f = concluded(recs, names, headroom).fields[i];
            settled(recs, f.name, headroom) == Some(f.ty) && f.required == (present(recs, f.name)
                == recs.len())
        }),
    decreases names.len(),
{
    if names.len() > 0 {
        let c = concluded(recs, names.drop_last(), headroom);
        if i < c.fields.len() {
            lemma_concluded(recs, names.drop_last(), headroom, i);
        }
    }
}

proof fn lemma_every_name_concluded(
    recs: Seq<RecordModel>,
    names: Seq<Seq<char>>,
    headroom: nat,
    k: int,
)
    requires
        0 <= k < names.len(),
        concluded(recs, names, headroom).rejected.len() == 0,
    ensures
        declares(concluded(recs, names, headroom).fields, names[k]),
    decreases names.len(),
{
    let rest = names.drop_last();
    let c = concluded(recs, rest, headroom);
    let all = concluded(recs, names, headroom);
    assert(settled(recs, names.last(), headroom) is Some);
    if k < rest.len() {
        assert(rest[k] == names[k]);
        lemma_every_name_concluded(recs, rest, headroom, k);
        let i = choose|i: int| 0 <= i < c.fields.len() && (#[trigger] c.fields[i]).name == names[k];
        assert(all.fields[i] == c.fields[i]);
    } else {
        assert(all.fields[c.fields.len() as int].name == names[k]);
    }
}

proof fn lemma_name_occurs(recs: Seq<RecordModel>, k: int, j: int)
    requires
        0 <= k < recs.len(),
        0 <= j < recs[k].len(),
    ensures
        names_in(recs).contains(recs[k][j].0),
    decreases recs.len(),
{
    let before = names_in(recs.drop_last());
    let own = recs.last().map_values(|e: (Seq<char>, ValueModel)| e.0);
    let all = names_in(recs);
    if k < recs.len() - 1 {
        assert(recs.drop_last()[k] == recs[k]);
        lemma_name_occurs(recs.drop_last(), k, j);
        let i = choose|i: int| 0 <= i < before.len() && before[i] == recs[k][j].0;
        assert(all[i] == recs[k][j].0);
    } else {
        assert(all[before.len() + j] == own[j]);
    }
}

/// Nothing that was sampled is rejected by the schema inferred from it.
pub proof fn lemma_sample_accepted(recs: Seq<RecordModel>, headroom: nat, k: int)
    requires
        0 <= k < recs.len(),
    ensures
        accepts(schema_for(concluded(recs, field_names(recs), headroom)), recs[k]),
{
    let names = field_names(recs);
    let c = concluded(recs, names, headroom);
    let s = schema_for(c);
    if s.mode != SchemaMode::Dynamic {
        assert forall|i: int| 0 <= i < s.fields.len() implies satisfied(
            #[trigger] s.fields[i],
            recs[k],
        ) by {
            let f = s.fields[i];
            lemma_concluded(recs, names, headroom, i);
            lemma_present_everywhere(recs, f.name, k);
            assert(declarable(s.mode, f));
            if let Some(v) = field_of(recs[k], f.name) {
                if kind_of(v) is Some {
                    lemma_seen_positive(recs, f.name, k);
                    lemma_longest_bounds(recs, f.name, k);
                    headroom_is_honoured(recs, f.name, headroom, v);
                }
            }
        }
        if s.mode == SchemaMode::Fixed {
            assert forall|j: int| 0 <= j < recs[k].len() implies declares(
                s.fields,
                (#[trigger] recs[k][j]).0,
            ) by {
                lemma_name_occurs(recs, k, j);
                lemma_sorted_set(names_in(recs));
                assert(sorted_set(names_in(recs)).contains(recs[k][j].0));
                let at = choose|at: int| 0 <= at < names.len() && names[at] == recs[k][j].0;
                lemma_every_name_concluded(recs, names, headroom, at);
            }
        }
    }
}

// -- what is frozen -------------------------------------------------------------

/// Whether some record holds a value under a name, null being none.
pub open spec fn is_held(recs: Seq<RecordModel>, name: Seq<char>) -> bool {
    exists|i: int|
        0 <= i < recs.len() && (field_of(#[trigger] recs[i], name) matches Some(v) && !(v is Null))
}

/// Whether every record holds a value under a name.
pub open spec fn held_by_all(recs: Seq<RecordModel>, name: Seq<char>) -> bool {
    forall|i: int|
        0 <= i < recs.len() ==> (field_of(#[trigger] recs[i], name) matches Some(v) && !(v is Null))
}

/// Whether every value under a name is of some kind.
pub open spec fn all_held(recs: Seq<RecordModel>, name: Seq<char>, p: spec_fn(ValueModel) -> bool) -> bool {
    forall|i: int|
        0 <= i < recs.len() ==> (field_of(#[trigger] recs[i], name) matches Some(v) ==> v is Null
            || p(v))
}

/// Whether some value under a name is of some kind.
pub open spec fn one_held(recs: Seq<RecordModel>, name: Seq<char>, p: spec_fn(ValueModel) -> bool) -> bool {
    exists|i: int|
        0 <= i < recs.len() && (field_of(#[trigger] recs[i], name) matches Some(v) && p(v))
}

/// Whether a field holds values of one kind and no other: truths, whole numbers, unsigned
/// ones among them or not, floating-point numbers, texts or bytes.
pub open spec fn of_one_kind(recs: Seq<RecordModel>, name: Seq<char>) -> bool {
    is_held(recs, name) && {
        ||| all_held(recs, name, |v: ValueModel| v is Bool)
        ||| all_held(recs, name, |v: ValueModel| v is I64 || v is U64)
        ||| all_held(recs, name, |v: ValueModel| v is F64)
        ||| all_held(recs, name, |v: ValueModel| v is Str)
        ||| all_held(recs, name, |v: ValueModel| v is Bytes)
    }
}

/// Whether a slot is wide enough for the longest content under a name and the headroom
/// besides, and no wider than the content's length takes; or is refused, because that
/// would be wider than any slot.
pub open spec fn slot_fits(recs: Seq<RecordModel>, name: Seq<char>, headroom: nat, w: u32) -> bool {
    exists|n: nat| #[trigger] is_longest(recs, name, n) && if w <= MAX_WIDTH {
        n + headroom + prefix_bytes(w as int) <= w <= n + headroom + 6
    } else {
        n + headroom + 6 > MAX_WIDTH
    }
}

/// Whether `n` is how long the longest text or byte string under a name is, in bytes.
pub open spec fn is_longest(recs: Seq<RecordModel>, name: Seq<char>, n: nat) -> bool {
    &&& one_held(
        recs,
        name,
        |v: ValueModel|
            match v {
                ValueModel::Str(s) => encode_utf8(s).len() == n,
                ValueModel::Bytes(b) => b.len() == n,
                _ => false,
            },
    )
    &&& all_held(
        recs,
        name,
        |v: ValueModel|
            match v {
                ValueModel::Str(s) => encode_utf8(s).len() <= n,
                ValueModel::Bytes(b) => b.len() <= n,
                _ => true,
            },
    )
}

/// Whether a type is the one a field's values ask for.
pub open spec fn type_fits(recs: Seq<RecordModel>, name: Seq<char>, headroom: nat, ty: FieldType) -> bool {
    is_held(recs, name) && match ty {
        FieldType::Bool => all_held(recs, name, |v: ValueModel| v is Bool),
        FieldType::I64 => all_held(recs, name, |v: ValueModel| v is I64 || v is U64) && one_held(
            recs,
            name,
            |v: ValueModel| v is I64,
        ),
        FieldType::U64 => all_held(recs, name, |v: ValueModel| v is U64),
        FieldType::F64 => all_held(recs, name, |v: ValueModel| v is F64),
        FieldType::Char(w) => all_held(recs, name, |v: ValueModel| v is Str) && slot_fits(
            recs,
            name,
            headroom,
            w,
        ),
        FieldType::FixedBytes(w) => all_held(recs, name, |v: ValueModel| v is Bytes) && slot_fits(
            recs,
            name,
            headroom,
            w,
        ),
        _ => false,
    }
}

proof fn lemma_seen_where(recs: Seq<RecordModel>, name: Seq<char>, k: Kind) -> (at: int)
    ensures
        seen(recs, name, k) > 0 ==> 0 <= at < recs.len() && kind_in(recs[at], name) == Some(k),
    decreases recs.len(),
{
    if recs.len() == 0 {
        0
    } else if kind_in(recs.last(), name) == Some(k) {
        recs.len() - 1
    } else {
        lemma_seen_where(recs.drop_last(), name, k)
    }
}

proof fn lemma_unseen(recs: Seq<RecordModel>, name: Seq<char>, k: Kind)
    ensures
        seen(recs, name, k) == 0 <==> forall|i: int|
            0 <= i < recs.len() ==> kind_in(#[trigger] recs[i], name) != Some(k),
{
    let at = lemma_seen_where(recs, name, k);
    assert forall|i: int| 0 <= i < recs.len() && seen(recs, name, k) == 0 implies kind_in(
        #[trigger] recs[i],
        name,
    ) != Some(k) by {
        if kind_in(recs[i], name) == Some(k) {
            lemma_seen_positive(recs, name, i);
        }
    }
}

proof fn lemma_present_all(recs: Seq<RecordModel>, name: Seq<char>)
    ensures
        present(recs, name) <= recs.len(),
        present(recs, name) == recs.len() <==> held_by_all(recs, name),
    decreases recs.len(),
{
    if recs.len() > 0 {
        let rest = recs.drop_last();
        lemma_present_all(rest, name);
        if held_by_all(recs, name) {
            assert forall|i: int| 0 <= i < rest.len() implies (field_of(#[trigger] rest[i], name)
                matches Some(v) && !(v is Null)) by {
                assert(rest[i] == recs[i]);
            }
            assert(recs[recs.len() - 1] == recs.last());
        }
        if present(recs, name) == recs.len() {
            assert forall|i: int| 0 <= i < recs.len() implies (field_of(#[trigger] recs[i], name)
                matches Some(v) && !(v is Null)) by {
                if i < rest.len() {
                    assert(rest[i] == recs[i]);
                }
            }
        }
    }
}

proof fn lemma_longest_is_held(recs: Seq<RecordModel>, name: Seq<char>) -> (at: int)
    ensures
        longest(recs, name) > 0 ==> 0 <= at < recs.len() && (field_of(recs[at], name) matches Some(v)
            && content_len(v) == longest(recs, name)),
    decreases recs.len(),
{
    if recs.len() == 0 {
        0
    } else {
        let before = lemma_longest_is_held(recs.drop_last(), name);
        match field_of(recs.last(), name) {
            Some(v) => if content_len(v) > longest(recs.drop_last(), name) {
                recs.len() - 1
            } else {
                before
            },
            None => before,
        }
    }
}

proof fn lemma_is_longest(recs: Seq<RecordModel>, name: Seq<char>)
    requires
        is_held(recs, name),
        all_held(recs, name, |v: ValueModel| v is Str) || all_held(
            recs,
            name,
            |v: ValueModel| v is Bytes,
        ),
    ensures
        is_longest(recs, name, longest(recs, name)),
{
    let n = longest(recs, name);
    let at = lemma_longest_is_held(recs, name);
    let i = choose|i: int|
        0 <= i < recs.len() && (field_of(#[trigger] recs[i], name) matches Some(v) && !(v is Null));
    let w = if n > 0 {
        at
    } else {
        i
    };
    lemma_longest_bounds(recs, name, w);
    assert(field_of(recs[w], name) is Some);
    assert forall|j: int| 0 <= j < recs.len() implies (field_of(#[trigger] recs[j], name) matches Some(
        v,
    ) ==> content_len(v) <= n) by {
        lemma_longest_bounds(recs, name, j);
    }
}

proof fn lemma_width_is_close(content: nat)
    ensures
        width_of(content) <= MAX_WIDTH ==> width_of(content) <= content + 6,
        width_of(content) > MAX_WIDTH ==> content + 6 > MAX_WIDTH,
{
}

/// A field is frozen exactly where it holds values of one kind, and as the type they ask
/// for.
pub proof fn a_field_of_one_kind_is_frozen(recs: Seq<RecordModel>, name: Seq<char>, headroom: nat)
    ensures
        settled(recs, name, headroom) is Some <==> of_one_kind(recs, name),
        settled(recs, name, headroom) matches Some(ty) ==> type_fits(recs, name, headroom, ty),
{
    let bools = lemma_seen_where(recs, name, Kind::Bool);
    let ints = lemma_seen_where(recs, name, Kind::Int);
    let uints = lemma_seen_where(recs, name, Kind::Uint);
    let floats = lemma_seen_where(recs, name, Kind::Float);
    let strings = lemma_seen_where(recs, name, Kind::Text);
    let bytes = lemma_seen_where(recs, name, Kind::Bytes);
    let nested = lemma_seen_where(recs, name, Kind::Nested);
    lemma_unseen(recs, name, Kind::Bool);
    lemma_unseen(recs, name, Kind::Int);
    lemma_unseen(recs, name, Kind::Uint);
    lemma_unseen(recs, name, Kind::Float);
    lemma_unseen(recs, name, Kind::Text);
    lemma_unseen(recs, name, Kind::Bytes);
    lemma_unseen(recs, name, Kind::Nested);
    if is_held(recs, name) {
        let i = choose|i: int|
            0 <= i < recs.len() && (field_of(#[trigger] recs[i], name) matches Some(v) && !(
            v is Null));
        assert(kind_in(recs[i], name) is Some);
    }
    if let Some(ty) = settled(recs, name, headroom) {
        let n = longest(recs, name);
        match ty {
            FieldType::Bool => {
                assert(field_of(recs[bools], name) is Some);
                assert(all_held(recs, name, |v: ValueModel| v is Bool));
            },
            FieldType::I64 => {
                assert(field_of(recs[ints], name) is Some);
                assert(all_held(recs, name, |v: ValueModel| v is I64 || v is U64));
            },
            FieldType::U64 => {
                assert(field_of(recs[uints], name) is Some);
                assert(all_held(recs, name, |v: ValueModel| v is I64 || v is U64));
                assert(all_held(recs, name, |v: ValueModel| v is U64));
            },
            FieldType::F64 => {
                assert(field_of(recs[floats], name) is Some);
                assert(all_held(recs, name, |v: ValueModel| v is F64));
            },
            FieldType::Char(w) => {
                assert(field_of(recs[strings], name) is Some);
                assert(all_held(recs, name, |v: ValueModel| v is Str));
                lemma_is_longest(recs, name);
                lemma_width_is_close(n + headroom);
                if w <= MAX_WIDTH {
                    lemma_width_fits(n + headroom);
                }
            },
            FieldType::FixedBytes(w) => {
                assert(field_of(recs[bytes], name) is Some);
                assert(all_held(recs, name, |v: ValueModel| v is Bytes));
                lemma_is_longest(recs, name);
                lemma_width_is_close(n + headroom);
                if w <= MAX_WIDTH {
                    lemma_width_fits(n + headroom);
                }
            },
            _ => {},
        }
    } else {
        if seen(recs, name, Kind::Nested) > 0 {
            assert(field_of(recs[nested], name) is Some);
        }
        if seen(recs, name, Kind::Bool) > 0 {
            assert(field_of(recs[bools], name) is Some);
        }
        if seen(recs, name, Kind::Int) > 0 {
            assert(field_of(recs[ints], name) is Some);
        }
        if seen(recs, name, Kind::Uint) > 0 {
            assert(field_of(recs[uints], name) is Some);
        }
        if seen(recs, name, Kind::Float) > 0 {
            assert(field_of(recs[floats], name) is Some);
        }
        if seen(recs, name, Kind::Text) > 0 {
            assert(field_of(recs[strings], name) is Some);
        }
        if seen(recs, name, Kind::Bytes) > 0 {
            assert(field_of(recs[bytes], name) is Some);
        }
    }
}

proof fn lemma_named(recs: Seq<RecordModel>, name: Seq<char>)
    ensures
        field_names(recs).contains(name) <==> exists|k: int|
            0 <= k < recs.len() && field_of(#[trigger] recs[k], name) is Some,
{
    lemma_sorted_set(names_in(recs));
    assert(field_names(recs).contains(name) == names_in(recs).contains(name));
    lemma_names_in(recs, name);
}

proof fn lemma_names_in(recs: Seq<RecordModel>, name: Seq<char>)
    ensures
        names_in(recs).contains(name) <==> exists|k: int|
            0 <= k < recs.len() && field_of(#[trigger] recs[k], name) is Some,
    decreases recs.len(),
{
    if recs.len() > 0 {
        let rest = recs.drop_last();
        let r = recs.last();
        lemma_names_in(rest, name);
        let before = names_in(rest);
        let own = r.map_values(|e: (Seq<char>, ValueModel)| e.0);
        let all = names_in(recs);
        lemma_field_is_found(r, name);
        assert(recs[recs.len() - 1] == r);
        if all.contains(name) {
            let i = choose|i: int| 0 <= i < all.len() && all[i] == name;
            if i < before.len() {
                assert(before[i] == name);
                let k = choose|k: int| 0 <= k < rest.len() && field_of(#[trigger] rest[k], name) is Some;
                assert(recs[k] == rest[k]);
            } else {
                let j = i - before.len();
                assert(own[j] == name);
                assert(r[j].0 == name);
                if field_of(r, name) is None {
                    lemma_found_somewhere(r, name, j);
                }
            }
        }
        if exists|k: int| 0 <= k < recs.len() && field_of(#[trigger] recs[k], name) is Some {
            let k = choose|k: int| 0 <= k < recs.len() && field_of(#[trigger] recs[k], name) is Some;
            if k < rest.len() {
                assert(rest[k] == recs[k]);
                let i = choose|i: int| 0 <= i < before.len() && before[i] == name;
                assert(all[i] == name);
            } else {
                let j = crate::assoc::lemma_find_some(r, name);
                assert(own[j] == name);
                assert(all[before.len() + j] == name);
            }
        }
    }
}

proof fn lemma_found_somewhere(r: RecordModel, name: Seq<char>, j: int)
    requires
        0 <= j < r.len(),
        r[j].0 == name,
    ensures
        field_of(r, name) is Some,
    decreases r.len(),
{
    if r[0].0 != name {
        assert(r.drop_first()[j - 1] == r[j]);
        lemma_found_somewhere(r.drop_first(), name, j - 1);
    }
}

proof fn lemma_concluded_of(
    recs: Seq<RecordModel>,
    names: Seq<Seq<char>>,
    headroom: nat,
    name: Seq<char>,
)
    ensures
        ({
            let c = concluded(recs, names, headroom);
            let always = present(recs, name) == recs.len();
            let kept = settled(recs, name, headroom);
            &&& c.universal.contains(name) <==> names.contains(name) && kept is Some && always
            &&& c.optional.contains(name) <==> names.contains(name) && kept is Some && !always
            &&& declares(c.fields, name) <==> names.contains(name) && kept is Some
            &&& forall|why: Seq<char>| #[trigger]
                c.rejected.contains((name, why)) <==> names.contains(name) && kept is None && why
                    == refusal(recs, name)
            &&& c.fields.len() == c.universal.len() + c.optional.len()
            &&& c.fields.len() + c.rejected.len() == names.len()
        }),
    decreases names.len(),
{
    let c = concluded(recs, names, headroom);
    if names.len() > 0 {
        let rest = names.drop_last();
        let last = names.last();
        let d = concluded(recs, rest, headroom);
        lemma_concluded_of(recs, rest, headroom, name);
        assert(names.contains(name) <==> rest.contains(name) || name == last) by {
            if names.contains(name) {
                let i = choose|i: int| 0 <= i < names.len() && names[i] == name;
                if i < rest.len() {
                    assert(rest[i] == name);
                }
            }
            if rest.contains(name) {
                let i = choose|i: int| 0 <= i < rest.len() && rest[i] == name;
                assert(names[i] == name);
            }
            assert(names[names.len() - 1] == last);
        }
        lemma_push_contains(d.universal, last, name);
        lemma_push_contains(d.optional, last, name);
        match settled(recs, last, headroom) {
            Some(ty) => {
                let f = FieldModel { name: last, ty, required: present(recs, last) == recs.len() };
                assert(c.fields == d.fields.push(f));
                if declares(d.fields, name) {
                    let i = choose|i: int|
                        0 <= i < d.fields.len() && (#[trigger] d.fields[i]).name == name;
                    assert(c.fields[i].name == name);
                }
                assert(c.fields[d.fields.len() as int] == f);
                if declares(c.fields, name) {
                    let i = choose|i: int|
                        0 <= i < c.fields.len() && (#[trigger] c.fields[i]).name == name;
                    if i < d.fields.len() {
                        assert(d.fields[i].name == name);
                    }
                }
            },
            None => {
                assert forall|why: Seq<char>| #[trigger]
                    c.rejected.contains((name, why)) <==> names.contains(name) && settled(
                        recs,
                        name,
                        headroom,
                    ) is None && why == refusal(recs, name) by {
                    lemma_push_contains(d.rejected, (last, refusal(recs, last)), (name, why));
                }
            },
        }
    }
}

proof fn lemma_push_contains<A>(s: Seq<A>, x: A, y: A)
    ensures
        s.push(x).contains(y) <==> s.contains(y) || x == y,
{
    assert(s.push(x)[s.len() as int] == x);
    if s.contains(y) {
        let i = choose|i: int| 0 <= i < s.len() && s[i] == y;
        assert(s.push(x)[i] == y);
    }
}

/// What inference comes to. A field is among those in every record where every record
/// holds a value of it, all of one kind; among the optional where some do; and it is
/// refused where its values, nested ones or none at all, are not of one kind. A schema
/// with a constant layout comes of it where there is a field and none is refused, and a
/// declared one where some is; each of its fields has the type its values ask for and is
/// required where every record holds it. Nothing is declared where there is no field to
/// declare, or where one would take a slot wider than there is.
pub proof fn inference_freezes_what_agrees(
    out: InferredSchema,
    recs: Seq<RecordModel>,
    headroom: nat,
    name: Seq<char>,
)
    requires
        inferred_from(out, recs, headroom),
    ensures
        out.records_sampled == recs.len(),
        texts(out.universal_fields@).contains(name) <==> of_one_kind(recs, name) && held_by_all(
            recs,
            name,
        ),
        texts(out.optional_fields@).contains(name) <==> of_one_kind(recs, name) && !held_by_all(
            recs,
            name,
        ),
        forall|why: Seq<char>| #[trigger]
            rejections(out.rejected@).contains((name, why)) <==> !of_one_kind(recs, name) && (exists|
                k: int,
            |
                0 <= k < recs.len() && field_of(#[trigger] recs[k], name) is Some) && why == if one_held(
                recs,
                name,
                |v: ValueModel| v is List,
            ) {
                "holds nested values"@
            } else {
                "holds more than one type"@
            },
        ({
            let s = out.schema@;
            let frozen = out.universal_fields@.len() + out.optional_fields@.len();
            &&& s.mode != SchemaMode::Strict
            &&& s.mode == SchemaMode::Fixed ==> frozen > 0 && out.rejected@.len() == 0
            &&& s.mode == SchemaMode::Declared ==> frozen > 0 && out.rejected@.len() > 0
            &&& s.mode == SchemaMode::Dynamic ==> s.fields.len() == 0
            &&& s.mode != SchemaMode::Dynamic ==> s.fields.len() == frozen && (declares(
                s.fields,
                name,
            ) <==> of_one_kind(recs, name)) && forall|i: int|
                #![trigger s.fields[i]]
                0 <= i < s.fields.len() ==> type_fits(
                    recs,
                    s.fields[i].name,
                    headroom,
                    s.fields[i].ty,
                ) && s.fields[i].required == held_by_all(recs, s.fields[i].name)
            &&& frozen > 0 && s.mode == SchemaMode::Dynamic ==> exists|n: Seq<char>, m: nat|
                #![trigger is_longest(recs, n, m)]
                is_longest(recs, n, m) && m + headroom + 6 > MAX_WIDTH
        }),
{
    let names = field_names(recs);
    let c = concluded(recs, names, headroom);
    lemma_concluded_of(recs, names, headroom, name);
    lemma_named(recs, name);
    lemma_present_all(recs, name);
    a_field_of_one_kind_is_frozen(recs, name, headroom);
    assert(of_one_kind(recs, name) ==> names.contains(name)) by {
        if is_held(recs, name) {
            let i = choose|i: int|
                0 <= i < recs.len() && (field_of(#[trigger] recs[i], name) matches Some(v) && !(
                v is Null));
            assert(field_of(recs[i], name) is Some);
        }
    }
    assert(seen(recs, name, Kind::Nested) > 0 <==> one_held(
        recs,
        name,
        |v: ValueModel| v is List,
    )) by {
        let at = lemma_seen_where(recs, name, Kind::Nested);
        lemma_unseen(recs, name, Kind::Nested);
        if seen(recs, name, Kind::Nested) > 0 {
            assert(field_of(recs[at], name) is Some);
        }
    }
    assert(texts(out.universal_fields@).len() == out.universal_fields@.len());
    assert(texts(out.optional_fields@).len() == out.optional_fields@.len());
    assert(rejections(out.rejected@).len() == out.rejected@.len());
    assert forall|i: int|
        #![trigger c.fields[i]]
        0 <= i < c.fields.len() implies type_fits(recs, c.fields[i].name, headroom, c.fields[i].ty)
        && c.fields[i].required == held_by_all(recs, c.fields[i].name) by {
        lemma_concluded(recs, names, headroom, i);
        lemma_present_all(recs, c.fields[i].name);
        a_field_of_one_kind_is_frozen(recs, c.fields[i].name, headroom);
    }
    assert(all_declarable(SchemaMode::Declared, c.fields) ==> all_declarable(
        SchemaMode::Fixed,
        c.fields,
    )) by {
        if all_declarable(SchemaMode::Declared, c.fields) {
            assert forall|i: int| 0 <= i < c.fields.len() implies declarable(
                SchemaMode::Fixed,
                #[trigger] c.fields[i],
            ) by {
                assert(declarable(SchemaMode::Declared, c.fields[i]));
                assert(type_fits(recs, c.fields[i].name, headroom, c.fields[i].ty));
            }
        }
    }
    if c.fields.len() > 0 && schema_for(c).mode == SchemaMode::Dynamic {
        let i = choose|i: int|
            0 <= i < c.fields.len() && !declarable(SchemaMode::Declared, #[trigger] c.fields[i]);
        let f = c.fields[i];
        assert(type_fits(recs, f.name, headroom, f.ty));
        let m = choose|m: nat| #[trigger] is_longest(recs, f.name, m) && m + headroom + 6 > MAX_WIDTH;
        assert(is_longest(recs, f.name, m));
    }
}

// -- in words ----------------------------------------------------------------

/// One refused field in words.
pub open spec fn refused_text(p: (Seq<char>, Seq<char>)) -> Seq<char> {
    p.0 + " ("@ + p.1 + ")"@
}

/// What freezing would newly forbid, in words.
pub open spec fn cost_text(fields: nat, rejected: Seq<(Seq<char>, Seq<char>)>) -> Seq<char> {
    let head = "records would be restricted to "@ + dec_text(fields) + " field(s)"@;
    if rejected.len() == 0 {
        head
    } else {
        head + "; "@ + dec_text(rejected.len()) + " field(s) could not be frozen: "@ + joined(
            rejected.map_values(|p: (Seq<char>, Seq<char>)| refused_text(p)),
            ", "@,
        )
    }
}

impl InferredSchema {
    /// Whether the inferred schema is strict enough to be directly addressed.
    pub fn is_fixed(&self) -> (r: bool)
        ensures
            r == (self.schema@.mode == SchemaMode::Fixed),
    {
        self.schema.mode() == SchemaMode::Fixed
    }

    /// What freezing would newly forbid, in words the user can act on.
    pub fn describe_cost(&self) -> (s: String)
        ensures
            s@ == cost_text(self.schema@.fields.len(), rejections(self.rejected@)),
    {
        let mut s = "records would be restricted to ".to_owned();
        push_dec(&mut s, self.schema.fields().len() as u64);
        s.append(" field(s)");
        if self.rejected.len() > 0 {
            let ghost all = rejections(self.rejected@).map_values(
                |p: (Seq<char>, Seq<char>)| refused_text(p),
            );
            let mut parts: Vec<String> = Vec::new();
            let mut i: usize = 0;
            while i < self.rejected.len()
                invariant
                    i <= self.rejected.len(),
                    all == rejections(self.rejected@).map_values(
                        |p: (Seq<char>, Seq<char>)| refused_text(p),
                    ),
                    all.len() == self.rejected@.len(),
                    parts@.len() == i,
                    forall|k: int| 0 <= k < i ==> #[trigger] parts@[k]@ == all[k],
                decreases self.rejected.len() - i,
            {
                let mut part = self.rejected[i].0.clone();
                part.append(" (");
                part.append(self.rejected[i].1.as_str());
                part.append(")");
                parts.push(part);
                i += 1;
            }
            assert(texts(parts@) =~= all);
            s.append("; ");
            push_dec(&mut s, self.rejected.len() as u64);
            s.append(" field(s) could not be frozen: ");
            s.append(join(&parts, ", ").as_str());
        }
        s
    }
}

} // verus!
