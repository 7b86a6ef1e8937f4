//! Schemas: how much of a record's shape is promised.

use vstd::prelude::*;
use vstd::utf8::*;
use crate::error::{Error, ErrorModel};
use crate::record::{field_of, Record, RecordModel};
use crate::text::str_eq;
use crate::value::{Value, ValueModel};

verus! {

/// How rigid a collection is.
#[derive(Clone, Copy, Debug, PartialEq, Eq, Structural)]
pub enum SchemaMode {
    /// Any record is accepted.
    Dynamic,
    /// Declared fields are typed; others are accepted.
    Declared,
    /// Only declared fields are accepted.
    Strict,
    /// As strict, and every field has a constant width.
    Fixed,
}

/// Where a mode stands on the spectrum, the freest first.
pub open spec fn rigidity_of(mode: SchemaMode) -> u8 {
    match mode {
        SchemaMode::Dynamic => 0,
        SchemaMode::Declared => 1,
        SchemaMode::Strict => 2,
        SchemaMode::Fixed => 3,
    }
}

impl SchemaMode {
    pub fn rigidity(&self) -> (r: u8)
        ensures
            r == rigidity_of(*self),
    {
        match self {
            SchemaMode::Dynamic => 0,
            SchemaMode::Declared => 1,
            SchemaMode::Strict => 2,
            SchemaMode::Fixed => 3,
        }
    }

    /// How a mode is named in messages.
    pub open spec fn label(&self) -> Seq<char> {
        match self {
            SchemaMode::Dynamic => "Dynamic"@,
            SchemaMode::Declared => "Declared"@,
            SchemaMode::Strict => "Strict"@,
            SchemaMode::Fixed => "Fixed"@,
        }
    }

    pub fn name(&self) -> (s: &'static str)
        ensures
            s@ == self.label(),
    {
        match self {
            SchemaMode::Dynamic => "Dynamic",
            SchemaMode::Declared => "Declared",
            SchemaMode::Strict => "Strict",
            SchemaMode::Fixed => "Fixed",
        }
    }
}

/// What a field holds. Text may be bounded, in bytes. `Char` and `FixedBytes` are slots
/// of that many bytes, the inline length included.
#[derive(Clone, Copy, Debug, PartialEq, Eq, Structural)]
pub enum FieldType {
    Bool,
    I64,
    U64,
    F64,
    Str { max_len: Option<u32> },
    Bytes,
    Char(u32),
    FixedBytes(u32),
}

/// The widest slot there is.
pub const MAX_WIDTH: u32 = 0xffff_fffe;

/// How many bytes of a slot of `width` bytes hold the content's length.
pub open spec fn prefix_bytes(width: int) -> int {
    if width <= 0xff {
        1
    } else if width <= 0xffff {
        2
    } else {
        4
    }
}

impl FieldType {
    /// How many bytes of a slot of `width` bytes hold the content's length.
    pub fn length_prefix_bytes(width: u32) -> (n: u32)
        ensures
            n == prefix_bytes(width as int),
    {
        if width <= 0xff {
            1
        } else if width <= 0xffff {
            2
        } else {
            4
        }
    }
}

/// Whether a field of type `ty` can hold `v`. Null is no value.
pub open spec fn holds(ty: FieldType, v: ValueModel) -> bool {
    match v {
        ValueModel::Null => true,
        ValueModel::Bool(_) => ty == FieldType::Bool,
        ValueModel::I64(_) => ty == FieldType::I64,
        ValueModel::U64(_) => ty == FieldType::U64 || ty == FieldType::I64,
        ValueModel::F64(_) => ty == FieldType::F64,
        ValueModel::Str(s) => match ty {
            FieldType::Str { max_len } => max_len matches Some(n) ==> encode_utf8(s).len() <= n,
            FieldType::Char(w) => encode_utf8(s).len() + prefix_bytes(w as int) <= w,
            _ => false,
        },
        ValueModel::Bytes(b) => match ty {
            FieldType::Bytes => true,
            FieldType::FixedBytes(w) => b.len() + prefix_bytes(w as int) <= w,
            _ => false,
        },
        ValueModel::List(_) => false,
    }
}

/// The width of a field that has a constant one.
pub open spec fn slot_width(ty: FieldType) -> Option<u32> {
    match ty {
        FieldType::Bool => Some(1),
        FieldType::I64 => Some(8),
        FieldType::U64 => Some(8),
        FieldType::F64 => Some(8),
        FieldType::Str { .. } => None,
        FieldType::Bytes => None,
        FieldType::Char(w) => Some(w),
        FieldType::FixedBytes(w) => Some(w),
    }
}

/// A declared field.
#[derive(Debug, PartialEq, Eq)]
pub struct FieldDef {
    pub name: String,
    pub ty: FieldType,
    pub required: bool,
}

/// What a [`FieldDef`] declares.
pub struct FieldModel {
    pub name: Seq<char>,
    pub ty: FieldType,
    pub required: bool,
}

impl View for FieldDef {
    type V = FieldModel;

    open spec fn view(&self) -> FieldModel {
        FieldModel { name: self.name@, ty: self.ty, required: self.required }
    }
}

/// What each field declares.
pub open spec fn field_models(fields: Seq<FieldDef>) -> Seq<FieldModel> {
    fields.map_values(|f: FieldDef| f@)
}

impl FieldDef {
    fn dup(&self) -> (f: FieldDef)
        ensures
            f@ == self@,
    {
        FieldDef { name: self.name.clone(), ty: self.ty, required: self.required }
    }
}

pub fn dup_fields(fields: &Vec<FieldDef>) -> (out: Vec<FieldDef>)
    ensures
        field_models(out@) == field_models(fields@),
{
    let mut out: Vec<FieldDef> = Vec::new();
    let mut i: usize = 0;
    while i < fields.len()
        invariant
            i <= fields.len(),
            out@.len() == i,
            forall|k: int| 0 <= k < i ==> (#[trigger] out@[k])@ == fields@[k]@,
        decreases fields.len() - i,
    {
        out.push(fields[i].dup());
        i += 1;
    }
    assert(field_models(out@) =~= field_models(fields@));
    out
}

/// A schema.
#[derive(Debug, PartialEq, Eq)]
pub struct Schema {
    mode: SchemaMode,
    fields: Vec<FieldDef>,
}

/// What a [`Schema`] promises.
pub struct SchemaModel {
    pub mode: SchemaMode,
    pub fields: Seq<FieldModel>,
}

impl View for Schema {
    type V = SchemaModel;

    closed spec fn view(&self) -> SchemaModel {
        SchemaModel { mode: self.mode, fields: field_models(self.fields@) }
    }
}

/// Whether a field may be declared under `mode`: no slot is wider than the
/// widest, and a fixed layout has slots only.
pub open spec fn declarable(mode: SchemaMode, f: FieldModel) -> bool {
    &&& slot_width(f.ty) matches Some(w) ==> w <= MAX_WIDTH
    &&& mode == SchemaMode::Fixed ==> slot_width(f.ty) is Some
}

pub open spec fn all_declarable(mode: SchemaMode, fields: Seq<FieldModel>) -> bool {
    forall|i: int| 0 <= i < fields.len() ==> declarable(mode, #[trigger] fields[i])
}

/// Whether a declared field is satisfied by a record.
pub open spec fn satisfied(f: FieldModel, r: RecordModel) -> bool {
    match field_of(r, f.name) {
        None => !f.required,
        Some(v) => holds(f.ty, v) && (f.required ==> !(v is Null)),
    }
}

/// Whether `name` is declared.
pub open spec fn declares(fields: Seq<FieldModel>, name: Seq<char>) -> bool {
    exists|i: int| 0 <= i < fields.len() && (#[trigger] fields[i]).name == name
}

/// Whether a schema accepts a record.
pub open spec fn accepts(s: SchemaModel, r: RecordModel) -> bool {
    s.mode == SchemaMode::Dynamic || {
        &&& forall|i: int| 0 <= i < s.fields.len() ==> satisfied(#[trigger] s.fields[i], r)
        &&& s.mode == SchemaMode::Declared || forall|k: int|
            0 <= k < r.len() ==> declares(s.fields, (#[trigger] r[k]).0)
    }
}

/// The bytes of a record with a constant layout: a presence byte and a slot per
/// field.
pub open spec fn layout_bytes(fields: Seq<FieldModel>) -> nat
    decreases fields.len(),
{
    if fields.len() == 0 {
        0
    } else {
        layout_bytes(fields.drop_last()) + 1 + (match slot_width(fields.last().ty) {
            Some(w) => w as nat,
            None => 0,
        })
    }
}

fn type_width(ty: FieldType) -> (w: Option<u32>)
    ensures
        w == slot_width(ty),
{
    match ty {
        FieldType::Bool => Some(1),
        FieldType::I64 => Some(8),
        FieldType::U64 => Some(8),
        FieldType::F64 => Some(8),
        FieldType::Str { .. } => None,
        FieldType::Bytes => None,
        FieldType::Char(w) => Some(w),
        FieldType::FixedBytes(w) => Some(w),
    }
}

fn type_holds(ty: FieldType, v: &Value) -> (r: bool)
    ensures
        r == holds(ty, v.model()),
{
    match v {
        Value::Null => true,
        Value::Bool(_) => ty == FieldType::Bool,
        Value::I64(_) => ty == FieldType::I64,
        Value::U64(_) => ty == FieldType::U64 || ty == FieldType::I64,
        Value::F64(_) => ty == FieldType::F64,
        Value::Str(s) => match ty {
            FieldType::Str { max_len } => match max_len {
                Some(n) => s.as_str().as_bytes().len() as u64 <= n as u64,
                None => true,
            },
            FieldType::Char(w) => {
                let n: usize = s.as_str().as_bytes().len();
                let p: u32 = FieldType::length_prefix_bytes(w);
                p <= w && n as u64 <= (w - p) as u64
            },
            _ => false,
        },
        Value::Bytes(b) => match ty {
            FieldType::Bytes => true,
            FieldType::FixedBytes(w) => {
                let p: u32 = FieldType::length_prefix_bytes(w);
                p <= w && b.len() as u64 <= (w - p) as u64
            },
            _ => false,
        },
        Value::List(_) => false,
    }
}

impl Schema {
    /// The schema that promises nothing.
    pub fn dynamic() -> (s: Schema)
        ensures
            s@ == (SchemaModel { mode: SchemaMode::Dynamic, fields: Seq::empty() }),
    {
        let s = Schema { mode: SchemaMode::Dynamic, fields: Vec::new() };
        assert(s@.fields =~= Seq::empty());
        s
    }

    /// A schema with declared fields. Refused exactly when one of them cannot be
    /// declared under `mode`.
    pub fn new(mode: SchemaMode, fields: Vec<FieldDef>) -> (r: Result<Schema, Error>)
        ensures
            match r {
                Ok(s) => all_declarable(mode, field_models(fields@)) && s@ == (SchemaModel {
                    mode,
                    fields: field_models(fields@),
                }),
                Err(e) => !all_declarable(mode, field_models(fields@)) && e@
                    == ErrorModel::InvalidSchema("a field has no admissible width"@),
            },
    {
        let mut i: usize = 0;
        while i < fields.len()
            invariant
                i <= fields.len(),
                forall|k: int|
                    0 <= k < i ==> declarable(mode, #[trigger] field_models(fields@)[k]),
            decreases fields.len() - i,
        {
            let ok = match type_width(fields[i].ty) {
                Some(w) => w <= MAX_WIDTH,
                None => match mode {
                    SchemaMode::Fixed => false,
                    _ => true,
                },
            };
            if !ok {
                assert(!declarable(mode, field_models(fields@)[i as int]));
                return Err(Error::InvalidSchema("a field has no admissible width".to_owned()));
            }
            i += 1;
        }
        Ok(Schema { mode, fields })
    }

    pub fn mode(&self) -> (m: SchemaMode)
        ensures
            m == self@.mode,
    {
        self.mode
    }

    pub fn fields(&self) -> (f: &Vec<FieldDef>)
        ensures
            field_models(f@) == self@.fields,
    {
        &self.fields
    }

    /// A copy that promises the same.
    pub fn dup(&self) -> (s: Schema)
        ensures
            s@ == self@,
    {
        Schema { mode: self.mode, fields: dup_fields(&self.fields) }
    }

    fn declares_name(&self, name: &str) -> (r: bool)
        ensures
            r == declares(self@.fields, name@),
    {
        let mut i: usize = 0;
        while i < self.fields.len()
            invariant
                i <= self.fields.len(),
                self@.fields.len() == self.fields@.len(),
                forall|k: int| 0 <= k < i ==> (#[trigger] self@.fields[k]).name != name@,
            decreases self.fields.len() - i,
        {
            if str_eq(self.fields[i].name.as_str(), name) {
                assert(self@.fields[i as int].name == name@);
                return true;
            }
            i += 1;
        }
        false
    }

    /// Whether a record may be stored under this schema.
    pub fn validate_record(&self, rec: &Record) -> (r: bool)
        ensures
            r == accepts(self@, rec.model()),
    {
        if self.mode == SchemaMode::Dynamic {
            return true;
        }
        let mut i: usize = 0;
        while i < self.fields.len()
            invariant
                i <= self.fields.len(),
                self@.mode != SchemaMode::Dynamic,
                self@.fields.len() == self.fields@.len(),
                forall|k: int|
                    0 <= k < i ==> satisfied(#[trigger] self@.fields[k], rec.model()),
            decreases self.fields.len() - i,
        {
            let f = &self.fields[i];
            assert(self@.fields[i as int] == f@);
            let ok = match rec.get(f.name.as_str()) {
                None => !f.required,
                Some(v) => type_holds(f.ty, v) && !(f.required && v.is_null()),
            };
            if !ok {
                assert(!satisfied(self@.fields[i as int], rec.model()));
                return false;
            }
            i += 1;
        }
        if self.mode == SchemaMode::Declared {
            return true;
        }
        let mut k: usize = 0;
        while k < rec.len()
            invariant
                k <= rec.model().len(),
                self@.mode != SchemaMode::Dynamic,
                self@.mode != SchemaMode::Declared,
                forall|j: int|
                    0 <= j < k ==> declares(self@.fields, (#[trigger] rec.model()[j]).0),
            decreases rec.model().len() - k,
        {
            if !self.declares_name(rec.name_at(k)) {
                assert(!declares(self@.fields, rec.model()[k as int].0));
                return false;
            }
            k += 1;
        }
        true
    }

    /// The size of every record, where the layout is constant and its size fits
    /// 64 bits.
    pub fn fixed_record_size(&self) -> (n: Option<u64>)
        ensures
            match n {
                Some(total) => self@.mode == SchemaMode::Fixed && total == layout_bytes(
                    self@.fields,
                ),
                None => self@.mode != SchemaMode::Fixed || layout_bytes(self@.fields) > u64::MAX,
            },
    {
        if self.mode != SchemaMode::Fixed {
            return None;
        }
        let ghost all = self@.fields;
        let mut total: u64 = 0;
        let mut i: usize = 0;
        assert(all.take(0) =~= Seq::empty());
        while i < self.fields.len()
            invariant
                i <= self.fields.len(),
                all == self@.fields,
                all.len() == self.fields@.len(),
                total == layout_bytes(all.take(i as int)),
            decreases self.fields.len() - i,
        {
            let w: u64 = match type_width(self.fields[i].ty) {
                Some(w) => w as u64,
                None => 0,
            };
            assert(all.take(i + 1).drop_last() =~= all.take(i as int));
            proof {
                lemma_layout_grows(all, i + 1);
            }
            match total.checked_add(1 + w) {
                Some(t) => {
                    total = t;
                },
                None => {
                    return None;
                },
            }
            i += 1;
        }
        assert(all.take(i as int) =~= all);
        Some(total)
    }
}

proof fn lemma_layout_grows(fields: Seq<FieldModel>, n: int)
    requires
        0 <= n <= fields.len(),
    ensures
        layout_bytes(fields.take(n)) <= layout_bytes(fields),
    decreases fields.len() - n,
{
    if n < fields.len() {
        assert(fields.take(n + 1).drop_last() =~= fields.take(n));
        lemma_layout_grows(fields, n + 1);
    } else {
        assert(fields.take(n) =~= fields);
    }
}

/// Whether a value is one that a field of a type may have.
pub open spec fn is_of_type(ty: FieldType, v: ValueModel) -> bool {
    match ty {
        FieldType::Bool => v is Bool,
        FieldType::I64 => v is I64 || v is U64,
        FieldType::U64 => v is U64,
        FieldType::F64 => v is F64,
        FieldType::Str { max_len } => v matches ValueModel::Str(s) && (max_len matches Some(n)
            ==> encode_utf8(s).len() <= n),
        FieldType::Bytes => v is Bytes,
        FieldType::Char(w) => v matches ValueModel::Str(s) && encode_utf8(s).len() <= w - (if w
            <= 0xff {
            1int
        } else if w <= 0xffff {
            2
        } else {
            4
        }),
        FieldType::FixedBytes(w) => v matches ValueModel::Bytes(b) && b.len() <= w - (if w <= 0xff {
            1int
        } else if w <= 0xffff {
            2
        } else {
            4
        }),
    }
}

/// What a schema accepts. One that promises nothing accepts every record. Any other has
/// every field that is required hold a value, and no field hold one of another type than
/// it declares; a field that is not required may be absent or null. Only a declared
/// schema lets a record have fields it does not name.
pub proof fn a_schema_accepts_what_it_declares(s: SchemaModel, r: RecordModel)
    ensures
        accepts(s, r) <==> s.mode is Dynamic || {
            &&& forall|i: int|
                #![trigger s.fields[i]]
                0 <= i < s.fields.len() ==> match field_of(r, s.fields[i].name) {
                    None => !s.fields[i].required,
                    Some(v) => if v is Null {
                        !s.fields[i].required
                    } else {
                        is_of_type(s.fields[i].ty, v)
                    },
                }
            &&& s.mode is Declared || forall|k: int|
                #![trigger r[k]]
                0 <= k < r.len() ==> exists|i: int|
                    0 <= i < s.fields.len() && (#[trigger] s.fields[i]).name == r[k].0
        },
{
    assert forall|i: int| #![trigger s.fields[i]] 0 <= i < s.fields.len() implies satisfied(
        s.fields[i],
        r,
    ) == match field_of(r, s.fields[i].name) {
        None => !s.fields[i].required,
        Some(v) => if v is Null {
            !s.fields[i].required
        } else {
            is_of_type(s.fields[i].ty, v)
        },
    } by {}
    assert forall|k: int| #![trigger r[k]] 0 <= k < r.len() implies declares(s.fields, r[k].0) == (
    exists|i: int| 0 <= i < s.fields.len() && (#[trigger] s.fields[i]).name == r[k].0) by {}
}

/// A record of constant size takes a byte and a slot for each field: one byte of a truth,
/// eight of a number, and the width that was declared of a text or of bytes.
pub proof fn a_constant_layout_adds_up(fields: Seq<FieldModel>, f: FieldModel)
    ensures
        layout_bytes(Seq::empty()) == 0,
        layout_bytes(fields.push(f)) == layout_bytes(fields) + 1 + match f.ty {
            FieldType::Bool => 1nat,
            FieldType::I64 | FieldType::U64 | FieldType::F64 => 8,
            FieldType::Char(w) => w as nat,
            FieldType::FixedBytes(w) => w as nat,
            FieldType::Str { .. } | FieldType::Bytes => 0,
        },
        declarable(SchemaMode::Fixed, f) <==> !(f.ty is Str) && !(f.ty is Bytes) && (f.ty matches
            FieldType::Char(w) ==> w <= 0xffff_fffe) && (f.ty matches FieldType::FixedBytes(w) ==> w
            <= 0xffff_fffe),
{
    assert(fields.push(f).drop_last() =~= fields);
}

} // verus!
