use adabt_engine::caches::Rows;
use adabt_engine::direct::DirectArray;
use adabt_engine::error::Error;
use adabt_engine::record::Record;
use adabt_engine::schema::{FieldDef, FieldType, Schema, SchemaMode};
use adabt_engine::value::Value;

fn required(name: &str, ty: FieldType) -> FieldDef {
    FieldDef { name: name.into(), ty, required: true }
}

fn optional(name: &str, ty: FieldType) -> FieldDef {
    FieldDef { name: name.into(), ty, required: false }
}

fn fixed() -> Schema {
    Schema::new(
        SchemaMode::Fixed,
        vec![
            required("id", FieldType::U64),
            required("balance", FieldType::I64),
            optional("name", FieldType::Char(24)),
        ],
    )
    .unwrap()
}

fn rec(i: u64) -> Record {
    Record::new()
        .with("id", Value::U64(i))
        .with("balance", Value::I64((i * 3) as i64))
        .with("name", Value::text(&format!("n{i}")))
}

fn density(a: &DirectArray) -> f64 {
    let (live, capacity) = a.density();
    if capacity == 0 {
        0.0
    } else {
        live as f64 / capacity as f64
    }
}

#[test]
fn only_a_fixed_schema_can_be_directly_addressed() {
    assert!(DirectArray::new(fixed()).is_some());
    assert!(DirectArray::new(Schema::dynamic()).is_none());
    let strict = Schema::new(SchemaMode::Strict, vec![optional("s", FieldType::Str { max_len: None })]).unwrap();
    assert!(DirectArray::new(strict).is_none());
}

#[test]
fn put_and_get_round_trip() {
    let mut a = DirectArray::new(fixed()).unwrap();
    for i in 0..100u64 {
        a.put(i, &rec(i)).unwrap();
    }
    for i in 0..100u64 {
        assert_eq!(a.get(i).unwrap(), Some(rec(i)));
    }
    assert_eq!(a.get(500).unwrap(), None);
}

#[test]
fn every_record_occupies_exactly_one_stride() {
    let mut a = DirectArray::new(fixed()).unwrap();
    let stride = a.stride();
    a.put(0, &rec(0)).unwrap();
    assert_eq!(
        a.memory_bytes() - std::mem::size_of::<DirectArray>() - 8,
        stride
    );
    a.put(9, &rec(9)).unwrap();
    // Ten slots allocated even though only two are live: that is the cost
    // of direct addressing, and why density gates it.
    assert!(a.capacity() as usize * stride >= 10 * stride);
    assert_eq!(
        a.memory_bytes() - std::mem::size_of::<DirectArray>() - 8,
        10 * stride
    );
}

#[test]
fn a_neighbouring_record_is_not_disturbed_by_a_write() {
    let mut a = DirectArray::new(fixed()).unwrap();
    for i in 0..5u64 {
        a.put(i, &rec(i)).unwrap();
    }
    a.put(2, &rec(999)).unwrap();
    assert_eq!(a.get(1).unwrap(), Some(rec(1)));
    assert_eq!(a.get(3).unwrap(), Some(rec(3)));
    assert_eq!(
        a.get(2).unwrap().unwrap().get("balance"),
        Some(&Value::I64(999 * 3))
    );
}

#[test]
fn removal_hides_a_record_without_disturbing_others() {
    let mut a = DirectArray::new(fixed()).unwrap();
    for i in 0..10u64 {
        a.put(i, &rec(i)).unwrap();
    }
    a.remove(5);
    assert_eq!(a.get(5).unwrap(), None);
    assert_eq!(a.get(4).unwrap(), Some(rec(4)));
    assert_eq!(a.get(6).unwrap(), Some(rec(6)));
    assert_eq!(a.live(), 9);
}

#[test]
fn reinserting_a_removed_id_does_not_double_count() {
    let mut a = DirectArray::new(fixed()).unwrap();
    a.put(1, &rec(1)).unwrap();
    a.remove(1);
    a.put(1, &rec(1)).unwrap();
    assert_eq!(a.live(), 1);
}

#[test]
fn overwriting_the_same_id_does_not_double_count() {
    let mut a = DirectArray::new(fixed()).unwrap();
    for _ in 0..5 {
        a.put(3, &rec(3)).unwrap();
    }
    assert_eq!(a.live(), 1);
}

#[test]
fn density_reflects_how_much_of_the_range_is_used() {
    let mut dense = DirectArray::new(fixed()).unwrap();
    for i in 0..100u64 {
        dense.put(i, &rec(i)).unwrap();
    }
    assert!((density(&dense) - 1.0).abs() < 1e-9);

    // Ten records spread across a million-id range: the representation
    // would allocate a million slots to hold ten records.
    let mut sparse = DirectArray::new(fixed()).unwrap();
    for i in 0..10u64 {
        sparse.put(i * 100_000, &rec(i)).unwrap();
    }
    assert!(density(&sparse) < 0.0001, "{}", density(&sparse));
    assert_eq!(density(&DirectArray::new(fixed()).unwrap()), 0.0);
}

#[test]
fn a_wrong_sized_write_is_rejected_rather_than_corrupting_neighbours() {
    let mut a = DirectArray::new(fixed()).unwrap();
    assert!(a.put_encoded(0, &[0u8; 3]).is_err());
    assert!(a.put_encoded(0, &vec![0u8; 10_000]).is_err());
}

#[test]
fn rebuild_reconstructs_the_whole_array() {
    let rows: Rows = (0..50u64).map(|i| (i, rec(i))).collect();
    let a = DirectArray::rebuild(fixed(), &rows).unwrap().unwrap();
    assert_eq!(a.live(), 50);
    for i in 0..50u64 {
        assert_eq!(a.get(i).unwrap(), Some(rec(i)));
    }
}

#[test]
fn rebuild_declines_a_schema_it_cannot_address() {
    let rows: Rows = vec![];
    assert!(DirectArray::rebuild(Schema::dynamic(), &rows).unwrap().is_none());
}

#[test]
fn a_sparse_high_id_does_not_lose_low_ids() {
    let mut a = DirectArray::new(fixed()).unwrap();
    a.put(0, &rec(0)).unwrap();
    a.put(10_000, &rec(10_000)).unwrap();
    assert_eq!(a.get(0).unwrap(), Some(rec(0)));
    assert_eq!(a.get(10_000).unwrap(), Some(rec(10_000)));
    assert_eq!(a.get(5_000).unwrap(), None);
    assert_eq!(a.live(), 2);
    assert_eq!(a.capacity(), 10_001);
}

fn schema() -> Schema {
    Schema::new(
        SchemaMode::Fixed,
        vec![
            required("id", FieldType::U64),
            required("balance", FieldType::I64),
            optional("active", FieldType::Bool),
            optional("name", FieldType::Char(24)),
        ],
    )
    .unwrap()
}

fn filled(n: u64) -> DirectArray {
    let mut a = DirectArray::new(schema()).unwrap();
    for i in 0..n {
        a.put(
            i,
            &Record::new()
                .with("id", Value::U64(i))
                .with("balance", Value::I64((i as i64) * 3))
                .with("active", Value::Bool(i % 2 == 0))
                .with("name", Value::text(&format!("n{i}"))),
        )
        .unwrap();
    }
    a
}

#[test]
fn a_single_field_read_matches_a_full_decode() {
    // The specialisation must be a shortcut, not a different answer.
    let a = filled(200);
    for i in 0..200u64 {
        let whole = a.get(i).unwrap().unwrap();
        for field in ["id", "balance", "active", "name"] {
            assert_eq!(
                a.field_at(i, field).unwrap().as_ref(),
                whole.get(field),
                "record {i} field {field}"
            );
        }
    }
}

#[test]
fn every_field_offset_is_read_correctly_not_just_the_first() {
    // An offset error would give plausible-looking wrong values for later
    // fields while the first one still looked fine.
    let a = filled(50);
    assert_eq!(a.field_at(7, "id").unwrap(), Some(Value::U64(7)));
    assert_eq!(a.field_at(7, "balance").unwrap(), Some(Value::I64(21)));
    assert_eq!(a.field_at(7, "active").unwrap(), Some(Value::Bool(false)));
    assert_eq!(a.field_at(7, "name").unwrap(), Some(Value::Str("n7".into())));
}

#[test]
fn an_absent_field_is_absent_without_being_read() {
    let mut a = DirectArray::new(schema()).unwrap();
    a.put(
        1,
        &Record::new().with("id", Value::U64(1)).with("balance", Value::I64(0)),
    )
    .unwrap();
    assert_eq!(a.field_at(1, "name").unwrap(), None);
    assert_eq!(a.field_at(1, "id").unwrap(), Some(Value::U64(1)));
}

#[test]
fn a_missing_record_and_an_unknown_field_both_report_nothing() {
    let a = filled(10);
    assert_eq!(a.field_at(999, "id").unwrap(), None);
    assert_eq!(a.field_at(1, "nonexistent").unwrap(), None);
}

#[test]
fn neighbouring_records_are_not_disturbed_by_a_field_read() {
    let a = filled(20);
    assert_eq!(a.field_at(0, "id").unwrap(), Some(Value::U64(0)));
    assert_eq!(a.field_at(19, "id").unwrap(), Some(Value::U64(19)));
    // And the value read for one id is not the value of its neighbour.
    for i in 0..20u64 {
        assert_eq!(a.field_at(i, "id").unwrap(), Some(Value::U64(i)));
    }
}

#[test]
fn what_an_array_refuses_it_says() {
    let mut a = DirectArray::new(fixed()).unwrap();
    // A byte for each field, eight for each number, and the slot of the name.
    assert_eq!(a.stride(), 3 + 8 + 8 + 24);
    assert_eq!(
        a.put_encoded(0, &[0u8; 3]),
        Err(Error::Corruption(
            "direct array stride is 43 but record encoded to 3".into()
        ))
    );
    assert_eq!(
        a.put(0, &Record::new().with("id", Value::U64(1))),
        Err(Error::InvalidSchema("record does not fit the fixed layout".into()))
    );
    a.put_encoded(0, &[2u8; 43]).unwrap();
    assert_eq!(
        a.get(0),
        Err(Error::Corruption("direct array slot does not decode".into()))
    );
    assert!(a.contains(0));
    assert!(!a.contains(1));
}

#[test]
fn a_bounded_text_is_bounded_in_bytes() {
    let bounded = FieldType::Str { max_len: Some(3) };
    let schema = Schema::new(SchemaMode::Strict, vec![optional("s", bounded)]).unwrap();
    let of = |s: &str| Record::new().with("s", Value::text(s));
    assert!(schema.validate_record(&of("abc")));
    assert!(schema.validate_record(&of("\u{e9}a")));
    assert!(!schema.validate_record(&of("abcd")));
    assert!(!schema.validate_record(&of("\u{e9}\u{e9}")));
    let free = FieldType::Str { max_len: None };
    let schema = Schema::new(SchemaMode::Strict, vec![optional("s", free)]).unwrap();
    assert!(schema.validate_record(&of("abcd")));
}
