use adabt_engine::infer::{infer, DEFAULT_HEADROOM};
use adabt_engine::record::Record;
use adabt_engine::schema::SchemaMode;
use adabt_engine::value::Value;

fn uniform(n: u64) -> Vec<Record> {
    (0..n)
        .map(|i| {
            Record::new()
                .with("id", Value::U64(i))
                .with("balance", Value::I64(i as i64))
                .with("name", Value::text(&format!("n{i}")))
        })
        .collect()
}

#[test]
fn a_uniform_collection_infers_a_fixed_schema() {
    // Schemaless data that settled into a shape becomes directly addressable.
    let recs = uniform(200);
    let out = infer(&recs, DEFAULT_HEADROOM);
    assert!(out.is_fixed(), "{:?}", out.rejected);
    assert_eq!(out.schema.fields().len(), 3);
    assert!(out.schema.fixed_record_size().is_some());
    assert_eq!(out.universal_fields.len(), 3);
}

#[test]
fn every_sampled_record_still_validates_against_the_inferred_schema() {
    // The property that makes freezing safe: nothing already stored would
    // be rejected by the schema inferred from it.
    let recs = uniform(300);
    let out = infer(&recs, DEFAULT_HEADROOM);
    for r in &recs {
        assert!(
            out.schema.validate_record(r),
            "inferred schema rejects its own input"
        );
    }
}

#[test]
fn a_mixed_type_field_is_refused_rather_than_guessed() {
    let recs = vec![
        Record::new().with("v", Value::I64(1)),
        Record::new().with("v", Value::text("text")),
    ];
    let out = infer(&recs, DEFAULT_HEADROOM);
    assert!(!out.is_fixed());
    assert_eq!(out.rejected.len(), 1);
    assert!(out.rejected[0].1.contains("more than one type"));
}

#[test]
fn a_nested_field_prevents_freezing() {
    let recs = vec![
        Record::new().with("v", Value::List(vec![Value::I64(1)])),
        Record::new().with("v", Value::List(vec![Value::I64(2)])),
    ];
    let out = infer(&recs, DEFAULT_HEADROOM);
    assert!(!out.is_fixed());
    assert!(out.rejected[0].1.contains("nested"));
}

#[test]
fn a_field_missing_from_some_records_becomes_optional_not_required() {
    let recs: Vec<Record> = (0..10u64)
        .map(|i| {
            let mut r = Record::new().with("id", Value::U64(i));
            if i % 2 == 0 {
                r.set("extra", Value::I64(i as i64));
            }
            r
        })
        .collect();
    let out = infer(&recs, DEFAULT_HEADROOM);
    assert_eq!(out.universal_fields, vec!["id".to_string()]);
    assert_eq!(out.optional_fields, vec!["extra".to_string()]);
    for r in &recs {
        assert!(out.schema.validate_record(r));
    }
}

#[test]
fn headroom_leaves_room_for_values_longer_than_anything_sampled() {
    // Without it the first longer record is rejected, turning an
    // optimization into an outage.
    let recs: Vec<Record> = vec![Record::new().with("s", Value::text("short"))];
    let out = infer(&recs, DEFAULT_HEADROOM);
    let longer = Record::new().with("s", Value::text("short plus a bit more"));
    assert!(
        out.schema.validate_record(&longer),
        "no headroom: a slightly longer value would be rejected"
    );
}

#[test]
fn a_value_far_longer_than_the_headroom_is_still_rejected() {
    // Freezing does constrain; the point is that it constrains predictably.
    let recs: Vec<Record> = vec![Record::new().with("s", Value::text("short"))];
    let out = infer(&recs, DEFAULT_HEADROOM);
    let huge = Record::new().with("s", Value::text(&"x".repeat(5_000)));
    assert!(!out.schema.validate_record(&huge));
}

#[test]
fn signed_and_unsigned_integers_widen_rather_than_conflict() {
    let recs = vec![
        Record::new().with("n", Value::U64(5)),
        Record::new().with("n", Value::I64(-5)),
    ];
    let out = infer(&recs, DEFAULT_HEADROOM);
    assert!(out.is_fixed(), "{:?}", out.rejected);
    for r in &recs {
        assert!(out.schema.validate_record(r));
    }
}

#[test]
fn an_empty_sample_infers_nothing() {
    let out = infer(&Vec::new(), DEFAULT_HEADROOM);
    assert_eq!(out.schema.mode(), SchemaMode::Dynamic);
    assert_eq!(out.records_sampled, 0);
    assert!(!out.is_fixed());
}

#[test]
fn nulls_do_not_count_as_a_type() {
    let recs = vec![
        Record::new().with("v", Value::I64(1)),
        Record::new().with("v", Value::Null),
    ];
    let out = infer(&recs, DEFAULT_HEADROOM);
    assert!(out.rejected.is_empty(), "{:?}", out.rejected);
    assert_eq!(out.optional_fields, vec!["v".to_string()]);
}

#[test]
fn the_cost_of_freezing_is_stated() {
    let recs = vec![
        Record::new().with("ok", Value::I64(1)).with("mixed", Value::I64(1)),
        Record::new().with("ok", Value::I64(2)).with("mixed", Value::text("s")),
    ];
    let out = infer(&recs, DEFAULT_HEADROOM);
    let cost = out.describe_cost();
    assert!(cost.contains("restricted to"), "{cost}");
    assert!(cost.contains("mixed"), "{cost}");
}
