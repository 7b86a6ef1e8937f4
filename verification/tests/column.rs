use adabt_engine::caches::Rows;
use adabt_engine::column::{ColumnAgg, ColumnStore};
use adabt_engine::record::Record;
use adabt_engine::value::Value;

fn rows(n: u64) -> Rows {
    const COUNTRIES: [&str; 4] = ["NO", "SE", "DK", "FI"];
    (0..n)
        .map(|i| {
            (
                i,
                Record::new()
                    .with("id", Value::U64(i))
                    .with("country", Value::text(COUNTRIES[(i % 4) as usize]))
                    .with("balance", Value::I64((i * 7 % 1000) as i64))
                    .with("active", Value::Bool(i % 2 == 0)),
            )
        })
        .collect()
}

fn store(n: u64) -> ColumnStore {
    ColumnStore::build(&rows(n))
}

fn fraction(part: (usize, usize)) -> f64 {
    if part.1 == 0 {
        0.0
    } else {
        part.0 as f64 / part.1 as f64
    }
}

#[test]
fn every_value_round_trips() {
    let src = rows(200);
    let cs = store(200);
    let got = cs.project(&["id", "country", "balance", "active"]);
    assert_eq!(got.len(), src.len());
    for ((gid, grec), (sid, srec)) in got.iter().zip(src.iter()) {
        assert_eq!(gid, sid);
        assert_eq!(grec, srec, "row {gid} differs");
    }
}

#[test]
fn projection_returns_only_the_named_fields() {
    let cs = store(50);
    for (_, rec) in cs.project(&["id", "balance"]) {
        assert_eq!(rec.len(), 2);
        assert!(rec.get("country").is_none());
    }
}

#[test]
fn rows_come_back_in_record_id_order() {
    // Insertion order is not id order in general, and the logical contract
    // is id order.
    let mut src: Rows = rows(50);
    src.reverse();
    let cs = ColumnStore::build(&src);
    let ids: Vec<u64> = cs.project(&["id"]).iter().map(|(i, _)| *i).collect();
    let mut sorted = ids.clone();
    sorted.sort_unstable();
    assert_eq!(ids, sorted);
}

#[test]
fn dictionary_encoding_collapses_a_low_cardinality_column() {
    let cs = store(10_000);
    assert_eq!(cs.cardinality("country"), Some(4));
    // 10,000 rows of 2-character country codes must not cost 10,000 strings.
    assert!(
        cs.memory_bytes() < 10_000 * 100,
        "column store is larger than expected: {}",
        cs.memory_bytes()
    );
}

#[test]
fn a_high_cardinality_text_column_still_works() {
    let src: Rows = (0..500u64)
        .map(|i| (i, Record::new().with("name", Value::text(&format!("unique-{i}")))))
        .collect();
    let cs = ColumnStore::build(&src);
    assert_eq!(cs.cardinality("name"), Some(500));
    let got = cs.project(&["name"]);
    assert_eq!(got.len(), 500);
    assert_eq!(got[7].1.get("name"), Some(&Value::Str("unique-7".into())));
}

#[test]
fn column_values_skips_absent_entries() {
    let src: Rows = (0..10u64)
        .map(|i| {
            let mut r = Record::new().with("id", Value::U64(i));
            if i % 2 == 0 {
                r.set("opt", Value::I64(i as i64));
            }
            (i, r)
        })
        .collect();
    let cs = ColumnStore::build(&src);
    assert_eq!(cs.column_values("opt").unwrap().len(), 5);
    assert_eq!(cs.column_values("id").unwrap().len(), 10);
    assert!(cs.column_values("nope").is_none());
}

#[test]
fn a_field_that_appears_late_is_backfilled() {
    // Columns must stay the same length as the row list, or every later
    // row would read a shifted value.
    let src: Rows = (0..10u64)
        .map(|i| {
            let mut r = Record::new().with("id", Value::U64(i));
            if i >= 5 {
                r.set("late", Value::I64(i as i64));
            }
            (i, r)
        })
        .collect();
    let cs = ColumnStore::build(&src);
    let got = cs.project(&["id", "late"]);
    for (id, rec) in got {
        if id >= 5 {
            assert_eq!(rec.get("late"), Some(&Value::I64(id as i64)), "row {id}");
        } else {
            assert!(rec.get("late").is_none(), "row {id} got a value it never had");
        }
    }
}

#[test]
fn deleted_rows_disappear_from_reads() {
    let mut cs = store(100);
    for i in (0..100u64).step_by(3) {
        cs.mark_dead(i);
    }
    let got = cs.project(&["id"]);
    assert_eq!(got.len(), cs.row_count());
    assert!(got.iter().all(|(id, _)| id % 3 != 0));
    assert!(cs.get(0, &["id"]).is_none());
    assert!(cs.get(1, &["id"]).is_some());
}

#[test]
fn marking_the_same_row_dead_twice_does_not_double_count() {
    let mut cs = store(10);
    cs.mark_dead(1);
    cs.mark_dead(1);
    assert_eq!(cs.row_count(), 9);
}

#[test]
fn dead_fraction_reports_when_a_rebuild_would_help() {
    let mut cs = store(100);
    assert_eq!(fraction(cs.dead_fraction()), 0.0);
    for i in 0..50u64 {
        cs.mark_dead(i);
    }
    assert!((fraction(cs.dead_fraction()) - 0.5).abs() < 1e-9);
}

#[test]
fn point_access_works_and_respects_projection() {
    let cs = store(100);
    let rec = cs.get(42, &["country", "balance"]).unwrap();
    assert_eq!(rec.len(), 2);
    assert_eq!(rec.get("country"), Some(&Value::Str("DK".into())));
    assert!(cs.get(9_999, &["id"]).is_none());
}

#[test]
fn an_empty_store_behaves() {
    let cs = ColumnStore::build(&Vec::new());
    assert!(cs.is_empty());
    assert_eq!(cs.row_count(), 0);
    assert!(cs.project(&["anything"]).is_empty());
    assert_eq!(fraction(cs.dead_fraction()), 0.0);
    assert!(cs.fields().is_empty());
}

#[test]
fn a_columnar_copy_is_smaller_than_the_rows_it_derives_from() {
    // Not automatic — it holds because the text column is low-cardinality.
    // A second copy that costs more than the original would be a bad trade
    // however fast it made scans.
    let cs = store(20_000);
    // Rows carry a padded fixed layout: header + bitmap + 8 + 8 + 8 + 1.
    let approx_row_bytes = 20_000 * 60;
    assert!(
        cs.memory_bytes() < approx_row_bytes,
        "columnar copy ({}) is not smaller than the rows ({approx_row_bytes})",
        cs.memory_bytes()
    );
}

fn totals(n: u64) -> ColumnStore {
    const C: [&str; 4] = ["NO", "SE", "DK", "FI"];
    let rows: Rows = (0..n)
        .map(|i| {
            (
                i,
                Record::new()
                    .with("country", Value::text(C[(i % 4) as usize]))
                    .with("balance", Value::I64((i % 100) as i64))
                    .with("age", Value::I64((i % 50) as i64)),
            )
        })
        .collect();
    ColumnStore::build(&rows)
}

fn count_rows() -> Vec<ColumnAgg> {
    vec![ColumnAgg { field: None, counts_rows: true }]
}

type NoTest = fn(&Record) -> bool;

#[test]
fn grouped_counts_are_correct() {
    let cs = totals(1_000);
    let out = cs.aggregate::<NoTest>(&vec!["country".to_string()], &count_rows(), None);
    assert_eq!(out.len(), 4);
    for (_, accs) in &out {
        assert_eq!(accs[0].count, 250);
    }
}

#[test]
fn sums_and_extremes_match_a_manual_pass() {
    let cs = totals(500);
    let out = cs.aggregate::<NoTest>(
        &vec![],
        &vec![ColumnAgg { field: Some("balance".into()), counts_rows: false }],
        None,
    );
    let expected: i64 = (0..500i64).map(|i| i % 100).sum();
    let acc = &out[0].1[0];
    assert_eq!(acc.whole, expected);
    assert!(acc.rest.is_empty());
    assert_eq!(acc.min, Some(Value::I64(0)));
    assert_eq!(acc.max, Some(Value::I64(99)));
    assert_eq!(acc.count, 500);
}

#[test]
fn a_predicate_filters_rows_without_a_record_per_row() {
    let cs = totals(1_000);
    let fields = vec!["age".to_string()];
    let test = |r: &Record| matches!(r.get("age"), Some(Value::I64(a)) if *a >= 25);
    let out = cs.aggregate(&vec![], &count_rows(), Some((&fields, test)));
    // age is i % 50, so half the rows qualify.
    assert_eq!(out[0].1[0].count, 500);
}

#[test]
fn dead_rows_are_excluded() {
    let mut cs = totals(100);
    for i in 0..50u64 {
        cs.mark_dead(i);
    }
    let out = cs.aggregate::<NoTest>(&vec![], &count_rows(), None);
    assert_eq!(out[0].1[0].count, 50);
}

#[test]
fn an_ungrouped_aggregate_over_nothing_yields_no_group() {
    // The caller supplies the COUNT(*)-of-nothing-is-zero rule; the column
    // store reports only what it saw.
    let cs = ColumnStore::build(&Vec::new());
    let out = cs.aggregate::<NoTest>(&vec![], &count_rows(), None);
    assert!(out.is_empty());
}

#[test]
fn a_column_that_does_not_exist_groups_as_null() {
    let cs = totals(10);
    let out = cs.aggregate::<NoTest>(&vec!["nope".to_string()], &count_rows(), None);
    assert_eq!(out.len(), 1);
    assert_eq!(out[0].0, vec![Value::Null]);
}

#[test]
fn a_fraction_is_left_to_be_added_in_turn() {
    let rows: Rows = vec![
        (0, Record::new().with("x", Value::I64(2))),
        (1, Record::new().with("x", Value::F64(0.5f64.to_bits()))),
        (2, Record::new().with("x", Value::I64(3))),
    ];
    let cs = ColumnStore::build(&rows);
    // The column is one of whole numbers, so the fraction is not of its type.
    let out = cs.aggregate::<NoTest>(
        &vec![],
        &vec![ColumnAgg { field: Some("x".into()), counts_rows: false }],
        None,
    );
    assert_eq!(out[0].1[0].whole, 5);
    assert_eq!(out[0].1[0].count, 2);

    let rows: Rows = vec![
        (0, Record::new().with("x", Value::F64(2.0f64.to_bits()))),
        (1, Record::new().with("x", Value::F64(0.5f64.to_bits()))),
        (2, Record::new().with("x", Value::F64(3.0f64.to_bits()))),
    ];
    let cs = ColumnStore::build(&rows);
    let out = cs.aggregate::<NoTest>(
        &vec![],
        &vec![ColumnAgg { field: Some("x".into()), counts_rows: false }],
        None,
    );
    let acc = &out[0].1[0];
    assert_eq!(acc.whole, 2);
    assert_eq!(
        acc.rest,
        vec![Value::F64(0.5f64.to_bits()), Value::F64(3.0f64.to_bits())]
    );
}

#[test]
fn the_best_ids_head_a_full_sort() {
    let mut cs = totals(300);
    cs.mark_dead(99);
    let got = cs.topk_ids("balance", true, 4).unwrap();
    // 99 is the best balance; ids 99, 199 and 299 hold it and 99 is dead.
    assert_eq!(got.len(), 4);
    assert_eq!(got[0], 199);
    assert_eq!(got[1], 299);
    assert!(cs.topk_ids("nope", true, 4).is_none());
}

#[test]
fn a_value_that_does_not_fit_its_column_is_absent() {
    let src: Rows = vec![
        (1, Record::new().with("n", Value::I64(-1))),
        (2, Record::new().with("n", Value::U64(u64::MAX))),
        (3, Record::new().with("n", Value::Bool(true))),
    ];
    let cs = ColumnStore::build(&src);
    let got = cs.project(&["n"]);
    assert_eq!(got[0], src[0]);
    assert_eq!(got[1], (2, Record::new()), "never another value");
    assert_eq!(got[2], (3, Record::new()));
}
