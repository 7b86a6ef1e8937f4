use adabt_engine::action::{Action, IndexKind};
use adabt_engine::caches::{AccessDecision, PlanDecision, Rows};
use adabt_engine::compiled::HOT_THRESHOLD;
use adabt_engine::database::Database;
use adabt_engine::error::Error;
use adabt_engine::expr::{CmpOp, Expr};
use adabt_engine::matview::Cell;
use adabt_engine::observe::{note_filtered_fields, Observation};
use adabt_engine::plan::{Agg, LogicalOp};
use adabt_engine::queries::{
    is_slow, CacheName, Opening, Path, QueryEvent, QueryMode, SlowQueryEvent,
};
use adabt_engine::record::Record;
use adabt_engine::structures::Collection;
use adabt_engine::trials::Routing;
use adabt_engine::value::Value;

fn eval(_: &Expr, _: &Record) -> bool {
    false
}

fn user(age: i64) -> Record {
    Record::new().with("age", Value::I64(age))
}

fn users() -> Rows {
    vec![(1, user(30)), (2, user(42))]
}

fn by_age(age: i64) -> LogicalOp {
    LogicalOp::scan("users").filter(Expr::compare("age", CmpOp::Eq, Value::I64(age)))
}

fn full_scan() -> PlanDecision {
    PlanDecision { access: AccessDecision::FullScan, rationale: "nothing better".into() }
}

fn by_index() -> PlanDecision {
    PlanDecision {
        access: AccessDecision::IndexLookup { field: "age".into() },
        rationale: "an index".into(),
    }
}

fn caching() -> Database {
    let mut db = Database::new();
    db.set_plan_cache_entries(8);
    db.set_result_cache_entries(8);
    db
}

fn probes(events: &[QueryEvent]) -> Vec<(&'static str, bool)> {
    events
        .iter()
        .filter_map(|e| match e {
            QueryEvent::CacheProbe { name, hit } => Some((name.as_str(), *hit)),
            QueryEvent::Observed(_) => None,
        })
        .collect()
}

#[test]
fn a_mode_says_what_may_answer_and_what_counts() {
    assert!(QueryMode::Normal.uses_caches());
    assert!(!QueryMode::Served.uses_caches());
    assert!(!QueryMode::Trial.uses_caches());
    assert!(QueryMode::Normal.is_counted());
    assert!(QueryMode::Served.is_counted());
    assert!(!QueryMode::Trial.is_counted());
    assert_eq!(CacheName::Plans.as_str(), "plan_cache");
}

#[test]
fn a_result_is_served_until_the_next_write() {
    let mut db = caching();
    let op = by_age(30);
    let (first, told) = db.query_in(&op, 7, 70, QueryMode::Normal);
    assert!(matches!(first, Opening::Plan(None)));
    assert_eq!(probes(&told), vec![("result_cache", false), ("plan_cache", false)]);
    assert_eq!(db.decided(7, &by_index(), true, QueryMode::Normal), Some("age"));
    let rows: Rows = vec![(1, user(30))];
    assert!(db.wants_view(&op).is_none());
    db.finish_query(&op, 70, QueryMode::Normal, &rows, None);

    let (second, told) = db.query_in(&op, 7, 70, QueryMode::Normal);
    match second {
        Opening::Kept(got) => assert_eq!(got, rows),
        _ => panic!("the result was not kept"),
    }
    assert_eq!(probes(&told), vec![("result_cache", true)]);

    db.insert("users", 9, &user(30), &eval);
    let (third, told) = db.query_in(&op, 7, 70, QueryMode::Normal);
    match third {
        Opening::Plan(Some(d)) => assert_eq!(d, by_index()),
        _ => panic!("a stale answer was served, or the decision was lost"),
    }
    assert_eq!(probes(&told), vec![("result_cache", false), ("plan_cache", true)]);
    // A write elsewhere takes nothing with it.
    db.finish_query(&op, 70, QueryMode::Normal, &rows, None);
    db.insert("orders", 1, &user(1), &eval);
    assert!(matches!(db.query_in(&op, 7, 70, QueryMode::Normal).0, Opening::Kept(_)));
}

#[test]
fn a_trial_neither_uses_nor_fills_what_is_kept() {
    let mut db = caching();
    let op = by_age(30);
    let rows: Rows = vec![(1, user(30))];
    db.finish_query(&op, 70, QueryMode::Normal, &rows, None);
    let (opening, told) = db.query_in(&op, 7, 70, QueryMode::Trial);
    assert!(matches!(opening, Opening::Plan(None)));
    assert!(told.is_empty());
    assert_eq!(db.decided(7, &by_index(), true, QueryMode::Trial), None);
    assert!(db.plan_cache.is_empty());
    let (opening, told) = db.query_in(&op, 7, 70, QueryMode::Served);
    assert!(matches!(opening, Opening::Plan(None)));
    assert_eq!(probes(&told), vec![]);
    assert_eq!(told.len(), 1, "a served query says what it filtered on");
    db.finish_query(&op, 71, QueryMode::Served, &rows, None);
    assert_eq!(db.result_cache.len(), 1);
}

#[test]
fn a_hot_read_by_identity_takes_the_short_way() {
    let mut db = Database::new();
    let op = LogicalOp::get("users", 2);
    for _ in 0..HOT_THRESHOLD {
        assert!(matches!(db.query_in(&op, 3, 30, QueryMode::Normal).0, Opening::Plan(None)));
    }
    assert_eq!(db.compiled_paths(), 1);
    match db.query_in(&op, 3, 30, QueryMode::Normal).0 {
        Opening::Identity { id, found } => {
            assert_eq!(id, 2);
            assert!(found.is_none(), "storage has to be asked");
        }
        _ => panic!("the path was not taken"),
    }
    assert_eq!(db.compiled_hits(), 1);
    assert_eq!(db.compile_identity_lookups("orders", true, 4), Ok(()));
    assert_eq!(db.compiled_paths(), 2);
    assert_eq!(
        db.compile_identity_lookups("ghosts", false, 5),
        Err(Error::NoSuchCollection("ghosts".into()))
    );
    // What a path was made for may be gone.
    db.create_index("users", true, "age", IndexKind::Hash, &users(), &eval).unwrap();
    assert_eq!(db.compiled_paths(), 0);
}

#[test]
fn a_view_is_built_by_the_first_query_that_wants_one() {
    let mut db = Database::new();
    let op = LogicalOp::scan("users").aggregate(vec![], vec![Agg::count("n")]);
    assert!(db.wants_view(&op).is_none(), "views are off");
    let none: Vec<Collection> = vec![];
    db.apply_action(&Action::SetMaterializedViews(true), &none, 0, &eval).unwrap();
    assert_eq!(db.wants_view(&op), Some("users"));
    assert!(db.wants_view(&by_age(1)).is_none());
    let scanned: Vec<Record> = users().into_iter().map(|(_, r)| r).collect();
    db.finish_query(&op, 1, QueryMode::Normal, &vec![], Some(&scanned));
    assert_eq!(db.materialized_views(), 1);
    assert!(db.wants_view(&op).is_none(), "it is there");
    db.insert("users", 9, &user(1), &eval);
    match db.query_in(&op, 8, 80, QueryMode::Trial).0 {
        Opening::View(rows) => {
            assert_eq!(rows.len(), 1);
            assert_eq!(rows[0].cells, vec![("n".to_string(), Cell::Value(Value::U64(3)))]);
        }
        _ => panic!("the view did not answer"),
    }
    assert!(db.needs_old_record("users"));
}

#[test]
fn a_query_is_routed_by_what_it_reads() {
    let mut db = Database::new();
    assert_eq!(db.query(&by_age(30)), Ok(Path::Single(Routing::Plain)));
    let join = |l: LogicalOp, r: LogicalOp| LogicalOp::Join {
        left: Box::new(l),
        right: Box::new(r),
        left_key: "id".to_string(),
        right_key: "user".to_string(),
    };
    let one = join(LogicalOp::scan("users"), LogicalOp::scan("orders"));
    assert_eq!(db.query(&one), Ok(Path::Join));
    let two = join(
        join(LogicalOp::scan("users"), LogicalOp::scan("orders")),
        LogicalOp::scan("items"),
    );
    assert_eq!(
        db.query(&two),
        Err(Error::Unsupported(
            "nested or multi-way joins are not implemented yet; a query may contain one Join".into()
        ))
    );
}

#[test]
fn a_slow_query_is_told_of() {
    assert!(!is_slow(None, u64::MAX));
    assert!(is_slow(Some(10), 10));
    assert!(!is_slow(Some(10), 9));
    let e = SlowQueryEvent {
        elapsed: 1_500_000,
        rows_scanned: 20,
        rows_returned: 3,
        explain: "scan".into(),
    };
    assert_eq!(e.line("1.5ms"), "slow query: 1.5ms, 20 rows scanned, 3 returned\nscan");
}

#[test]
fn a_query_teaches_what_it_filtered_on_and_returned() {
    let op = LogicalOp::scan("users")
        .filter(Expr::And(vec![
            Expr::compare("country", CmpOp::Eq, Value::text("NO")),
            Expr::compare("age", CmpOp::Ge, Value::I64(18)),
        ]))
        .project(vec!["name".into(), "country".into()]);
    let got = note_filtered_fields(&op);
    assert_eq!(
        got,
        vec![
            Observation::FieldFiltered { field: "country".into(), equality: true },
            Observation::FieldFiltered { field: "age".into(), equality: false },
            Observation::FieldsProjectedTogether {
                filtered: "age".into(),
                fields: vec!["country".into(), "name".into()],
                equality: false,
            },
            Observation::FieldsProjectedTogether {
                filtered: "country".into(),
                fields: vec!["name".into()],
                equality: true,
            },
        ]
    );
    assert_eq!(full_scan().access, AccessDecision::FullScan);
}
