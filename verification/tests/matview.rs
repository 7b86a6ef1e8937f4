use adabt_engine::expr::{CmpOp, Expr};
use adabt_engine::matview::{is_maintainable, AnswerRow, Cell, MaterializedView, MaterializedViews};
use adabt_engine::plan::{Agg, AggKind, LogicalOp};
use adabt_engine::record::Record;
use adabt_engine::value::Value;

fn count_by_country() -> LogicalOp {
    LogicalOp::scan("users").aggregate(vec!["country".into()], vec![Agg::count("n")])
}

fn rec(country: &str) -> Record {
    Record::new().with("country", Value::text(country))
}

fn views() -> MaterializedViews {
    let mut v = MaterializedViews::new();
    v.set_enabled(true);
    v
}

fn cell<'a>(row: &'a AnswerRow, name: &str) -> Option<&'a Value> {
    row.cells.iter().find(|(n, _)| n == name).map(|(_, c)| match c {
        Cell::Value(v) => v,
        Cell::Mean { .. } => panic!("expected a value, got {c:?}"),
    })
}

fn whole(n: f64) -> Value {
    Value::F64(n.to_bits())
}

fn counts(rows: &[AnswerRow]) -> Vec<(String, u64)> {
    rows.iter()
        .map(|r| {
            (
                match cell(r, "country") {
                    Some(Value::Str(s)) => s.to_string(),
                    other => format!("{other:?}"),
                },
                match cell(r, "n") {
                    Some(Value::U64(n)) => *n,
                    other => panic!("expected a count, got {other:?}"),
                },
            )
        })
        .collect()
}

#[test]
fn a_view_counts_what_it_was_built_from() {
    let mut v = views();
    let rows = vec![rec("NO"), rec("SE"), rec("NO"), rec("DK")];
    assert!(v.materialize(&count_by_country(), &rows));
    let answer = v.answer(&count_by_country()).unwrap();
    assert_eq!(
        counts(&answer),
        vec![("DK".into(), 1), ("NO".into(), 2), ("SE".into(), 1)]
    );
}

#[test]
fn maintenance_tracks_inserts_updates_and_deletes() {
    let mut v = views();
    assert!(v.materialize(&count_by_country(), &vec![]));
    v.on_insert("users", &rec("NO"));
    v.on_insert("users", &rec("NO"));
    v.on_insert("users", &rec("SE"));
    assert_eq!(
        counts(&v.answer(&count_by_country()).unwrap()),
        vec![("NO".into(), 2), ("SE".into(), 1)]
    );

    v.on_update("users", &rec("NO"), &rec("SE"));
    assert_eq!(
        counts(&v.answer(&count_by_country()).unwrap()),
        vec![("NO".into(), 1), ("SE".into(), 2)]
    );

    v.on_remove("users", &rec("NO"));
    assert_eq!(
        counts(&v.answer(&count_by_country()).unwrap()),
        vec![("SE".into(), 2)],
        "an emptied group was still reported"
    );
}

#[test]
fn a_group_disappears_rather_than_reporting_zero() {
    // The scanning aggregate emits nothing for a value no row holds. A view
    // that kept the group would answer with a row the scan never produces,
    // which is a divergence even though the number in it is right.
    let mut v = views();
    v.materialize(&count_by_country(), &vec![rec("NO")]);
    v.on_remove("users", &rec("NO"));
    assert!(v.answer(&count_by_country()).unwrap().is_empty());
}

#[test]
fn a_missing_field_groups_under_null() {
    let mut v = views();
    let rows = vec![rec("NO"), Record::new(), Record::new()];
    v.materialize(&count_by_country(), &rows);
    let answer = v.answer(&count_by_country()).unwrap();
    assert_eq!(answer.len(), 2);
    // Null sorts first under the total value order the executor also uses.
    assert_eq!(cell(&answer[0], "n"), Some(&Value::U64(2)));
}

#[test]
fn counting_a_field_ignores_nulls_but_keeps_the_group() {
    let op = LogicalOp::scan("users").aggregate(
        vec!["country".into()],
        vec![Agg::over(AggKind::Count, "email", "with_email")],
    );
    let mut v = views();
    let rows = vec![rec("NO").with("email", Value::text("a@b")), rec("NO"), rec("SE")];
    v.materialize(&op, &rows);
    let answer = v.answer(&op).unwrap();
    assert_eq!(answer.len(), 2, "a group of all-null values vanished");
    // Groups come out in value order, so NO before SE.
    assert_eq!(cell(&answer[0], "country"), Some(&Value::text("NO")));
    assert_eq!(cell(&answer[0], "with_email"), Some(&Value::U64(1)));
    assert_eq!(cell(&answer[1], "country"), Some(&Value::text("SE")));
    assert_eq!(cell(&answer[1], "with_email"), Some(&Value::U64(0)));
}

#[test]
fn an_ungrouped_count_of_nothing_is_one_row_saying_zero() {
    let op = LogicalOp::scan("users").aggregate(vec![], vec![Agg::count("n")]);
    let mut v = views();
    v.materialize(&op, &vec![]);
    let answer = v.answer(&op).unwrap();
    assert_eq!(answer.len(), 1, "COUNT(*) of nothing produced nothing");
    assert_eq!(cell(&answer[0], "n"), Some(&Value::U64(0)));
}

#[test]
fn extremes_are_refused_because_deletion_cannot_maintain_them() {
    // No condition rescues these. Removing the current minimum tells you
    // nothing about the new one without re-reading every remaining value.
    for kind in [AggKind::Min, AggKind::Max] {
        let aggs = vec![Agg::over(kind, "amount", "extreme")];
        assert!(!is_maintainable(&aggs), "{kind:?} was accepted");
        let op = LogicalOp::scan("users").aggregate(vec!["country".into()], aggs);
        assert!(MaterializedViews::definition_of(&op).is_none());
    }
}

#[test]
fn one_unmaintainable_aggregate_disqualifies_the_whole_query() {
    // Answering the count from a view and the minimum from a scan would be
    // two answers to one question, and the row they arrive in cannot say so.
    let op = LogicalOp::scan("users").aggregate(
        vec!["country".into()],
        vec![Agg::count("n"), Agg::over(AggKind::Min, "amount", "low")],
    );
    assert!(MaterializedViews::definition_of(&op).is_none());
}

fn sum_by_country() -> LogicalOp {
    LogicalOp::scan("users").aggregate(
        vec!["country".into()],
        vec![Agg::over(AggKind::Sum, "amount", "total")],
    )
}

fn amount(country: &str, v: Value) -> Record {
    Record::new().with("country", Value::text(country)).with("amount", v)
}

#[test]
fn an_integer_sum_is_maintained_exactly() {
    let mut v = views();
    let rows = vec![
        amount("NO", Value::I64(3)),
        amount("NO", Value::I64(-8)),
        amount("SE", Value::U64(1_000_000)),
    ];
    assert!(v.materialize(&sum_by_country(), &rows));
    let got = v.answer(&sum_by_country()).unwrap();
    assert_eq!(cell(&got[0], "total"), Some(&whole(-5.0)));
    assert_eq!(cell(&got[1], "total"), Some(&whole(1_000_000.0)));

    v.on_insert("users", &amount("NO", Value::I64(5)));
    v.on_remove("users", &amount("NO", Value::I64(-8)));
    let got = v.answer(&sum_by_country()).unwrap();
    assert_eq!(cell(&got[0], "total"), Some(&whole(8.0)));
}

#[test]
fn a_fractional_value_makes_the_view_stop_answering() {
    // The moment exactness cannot be guaranteed, the view declines and the
    // query is answered by the scan. Silently approximating is the one
    // outcome that is not allowed.
    let mut v = views();
    v.materialize(&sum_by_country(), &vec![amount("NO", Value::I64(3))]);
    assert!(v.answer(&sum_by_country()).is_some());

    v.on_insert("users", &amount("NO", whole(0.1)));
    assert!(
        v.answer(&sum_by_country()).is_none(),
        "a view containing 0.1 still claimed to know the sum"
    );
}

#[test]
fn a_sum_that_outgrows_exact_arithmetic_stops_answering() {
    // Below 2^53 every partial sum of integers is exactly representable and
    // order stops mattering. Above it, it does not, and the view says so
    // rather than drifting.
    let mut v = views();
    v.materialize(&sum_by_country(), &vec![]);
    v.on_insert("users", &amount("NO", Value::I64(4_000_000_000_000_000)));
    assert!(v.answer(&sum_by_country()).is_some(), "gave up too early");
    v.on_insert("users", &amount("NO", Value::I64(6_000_000_000_000_000)));
    assert!(
        v.answer(&sum_by_country()).is_none(),
        "kept answering past the point where addition is exact"
    );
}

#[test]
fn the_budget_counts_deletions_too() {
    // A subtraction is as much an operation as an addition. A view that only
    // charged for inserts could be walked past the limit by a long
    // insert-delete cycle while believing it had spent nothing.
    let mut v = views();
    v.materialize(&sum_by_country(), &vec![]);
    let big = amount("NO", Value::I64(5_000_000_000_000_000));
    v.on_insert("users", &big);
    assert!(v.answer(&sum_by_country()).is_some());
    v.on_remove("users", &big);
    assert!(
        v.answer(&sum_by_country()).is_none(),
        "deleting a value cost nothing against the exactness budget"
    );
}

#[test]
fn one_inexact_aggregate_disqualifies_the_view() {
    // Answering the count from the view and the sum from a scan is not an
    // option, so the whole view declines.
    let op = LogicalOp::scan("users").aggregate(
        vec!["country".into()],
        vec![Agg::count("n"), Agg::over(AggKind::Sum, "amount", "total")],
    );
    let mut v = views();
    v.materialize(&op, &vec![amount("NO", Value::I64(1))]);
    assert!(v.answer(&op).is_some());
    v.on_insert("users", &amount("NO", whole(1.5)));
    assert!(v.answer(&op).is_none());
}

#[test]
fn a_non_numeric_value_contributes_to_neither_sum_nor_exactness() {
    // The scan skips it. The view must skip it identically — and must not
    // treat skipping as a reason to give up, or a text column beside a
    // numeric one would disable every view that mentions it.
    let mut v = views();
    v.materialize(&sum_by_country(), &vec![]);
    v.on_insert("users", &amount("NO", Value::text("not a number")));
    v.on_insert("users", &amount("NO", Value::I64(7)));
    let got = v.answer(&sum_by_country()).expect("gave up on a string");
    assert_eq!(cell(&got[0], "total"), Some(&whole(7.0)));
}

#[test]
fn a_sum_over_nothing_numeric_is_null_not_zero() {
    let mut v = views();
    v.materialize(&sum_by_country(), &vec![]);
    v.on_insert("users", &amount("NO", Value::text("x")));
    let got = v.answer(&sum_by_country()).unwrap();
    assert_eq!(cell(&got[0], "total"), Some(&Value::Null));
}

#[test]
fn a_filtered_aggregate_is_not_served_by_a_view() {
    // The view holds totals, not rows, so it cannot answer about a subset.
    let op = LogicalOp::scan("users")
        .filter(Expr::compare("country", CmpOp::Eq, Value::text("NO")))
        .aggregate(vec!["country".into()], vec![Agg::count("n")]);
    assert!(MaterializedViews::definition_of(&op).is_none());
    let mut v = views();
    assert!(!v.materialize(&op, &vec![]));
    assert!(v.answer(&op).is_none());
}

#[test]
fn a_view_answers_only_the_query_it_was_built_for() {
    let mut v = views();
    v.materialize(&count_by_country(), &vec![rec("NO")]);
    let other = LogicalOp::scan("users").aggregate(vec!["age".into()], vec![Agg::count("n")]);
    assert!(v.answer(&other).is_none(), "a view answered another grouping");
    let elsewhere =
        LogicalOp::scan("orders").aggregate(vec!["country".into()], vec![Agg::count("n")]);
    assert!(
        v.answer(&elsewhere).is_none(),
        "a view answered another collection"
    );
}

#[test]
fn disabling_drops_every_view() {
    let mut v = views();
    v.materialize(&count_by_country(), &vec![rec("NO")]);
    assert_eq!(v.len(), 1);
    v.set_enabled(false);
    assert!(v.is_empty());
    assert!(v.answer(&count_by_country()).is_none());
}

#[test]
fn nothing_is_materialized_while_disabled() {
    let mut v = MaterializedViews::new();
    assert!(!v.materialize(&count_by_country(), &vec![rec("NO")]));
    assert!(v.answer(&count_by_country()).is_none());
}

#[test]
fn maintenance_of_an_unwatched_collection_changes_nothing() {
    let mut v = views();
    v.materialize(&count_by_country(), &vec![rec("NO")]);
    v.on_insert("orders", &rec("NO"));
    assert_eq!(
        counts(&v.answer(&count_by_country()).unwrap()),
        vec![("NO".into(), 1)]
    );
    assert!(v.watches("users"));
    assert!(!v.watches("orders"));
}

#[test]
fn a_mean_is_handed_out_as_what_it_divides() {
    let op = LogicalOp::scan("users").aggregate(
        vec![],
        vec![Agg::over(AggKind::Avg, "amount", "mean")],
    );
    let mut v = views();
    v.materialize(&op, &vec![amount("NO", Value::I64(3)), amount("SE", Value::I64(4))]);
    let got = v.answer(&op).unwrap();
    assert_eq!(got[0].cells, vec![("mean".to_string(), Cell::Mean { sum: 7, count: 2 })]);
}

#[test]
fn a_sum_whose_numbers_have_all_left_is_null_again() {
    let kept = Record::new().with("country", Value::text("SE"));
    let gone = amount("SE", Value::I64(5));
    let of_country = || {
        let aggs = vec![Agg {
            kind: AggKind::Sum,
            field: Some("amount".into()),
            output: "total".into(),
        }];
        MaterializedView::new("c", &vec!["country".to_string()], &aggs)
    };
    let mut v = of_country();
    v.insert(&kept);
    v.insert(&gone);
    v.remove(&gone);
    let mut rebuilt = of_country();
    rebuilt.insert(&kept);
    assert_eq!(v.rows(), rebuilt.rows());
    assert_eq!(cell(&v.rows()[0], "total"), Some(&Value::Null));
}
