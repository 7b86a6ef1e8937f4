use adabt_engine::action::{Action, Decision, DecisionAction, IndexKind, Phase};
use adabt_engine::caches::Rows;
use adabt_engine::database::Database;
use adabt_engine::error::Error;
use adabt_engine::expr::Expr;
use adabt_engine::infer::DEFAULT_HEADROOM;
use adabt_engine::optimizations::OptContext;
use adabt_engine::plan::LogicalOp;
use adabt_engine::queries::Path;
use adabt_engine::record::Record;
use adabt_engine::schema::Schema;
use adabt_engine::strmap::StrMap;
use adabt_engine::structures::Collection;
use adabt_engine::trials::{is_shadowable, Routing, Step};
use adabt_engine::value::Value;

fn eval(_: &Expr, _: &Record) -> bool {
    false
}

fn ctx() -> OptContext {
    OptContext {
        collections: vec![("users".into(), 10_000), ("orders".into(), 10_000)],
        filtered_fields: vec![],
        fixed_size_collections: vec![],
        existing_indexes: vec![],
        equality: vec![],
        writes: 0,
        operations: 0,
        current_bytes: 0,
    }
}

fn names() -> Vec<String> {
    vec!["users".to_string(), "orders".to_string()]
}

fn decision(optimization: &str, scope: &str, action: DecisionAction) -> Decision {
    Decision {
        optimization: optimization.into(),
        scope: scope.into(),
        action,
        trigger: "slow reads".into(),
    }
}

fn index_on(scope: &str) -> Decision {
    decision("auto_index", scope, DecisionAction::Enable)
}

fn begin(db: &mut Database, d: Decision) -> Result<u64, Error> {
    db.begin_experiment(d, &ctx(), None, &names())
}

fn refused(why: &str) -> Result<u64, Error> {
    Err(Error::InvalidOptimization(why.into()))
}

fn rows() -> Rows {
    vec![(1, Record::new().with("country", Value::text("NO")))]
}

fn everything() -> Vec<Collection> {
    vec![Collection { name: "users".into(), schema: Schema::dynamic(), rows: rows() }]
}

fn create() -> Action {
    Action::CreateIndex {
        collection: "users".into(),
        field: "country".into(),
        kind: IndexKind::Hash,
    }
}

fn seen_by_planner(db: &Database) -> usize {
    let none: StrMap<u64> = StrMap::new();
    db.plan_context(&none).collections.get("users").map(|c| c.indexes.len()).unwrap_or(0)
}

/// A database with one experiment whose candidate is built and hidden.
fn building() -> Database {
    let mut db = Database::new();
    assert_eq!(begin(&mut db, index_on("users.country")), Ok(1));
    match db.advance_experiment(1, Phase::Building, "") {
        Step::Build(d) => {
            assert_eq!(d.trigger, "trialled by experiment #1: slow reads");
            assert_eq!(d.action, DecisionAction::Enable);
        }
        _ => panic!("nothing to build"),
    }
    db.apply_action(&create(), &everything(), DEFAULT_HEADROOM, &eval).unwrap();
    assert!(db.trials.finish_build(1, true, &vec![]).is_none());
    db
}

#[test]
fn a_decision_that_cannot_be_proved_is_refused() {
    let mut db = Database::new();
    assert_eq!(
        begin(&mut db, decision("auto_index", "users.country", DecisionAction::Disable)),
        refused("only an enable can be experimented on, not a disable")
    );
    assert_eq!(
        begin(&mut db, decision("guesswork", "global", DecisionAction::Enable)),
        refused("guesswork is not registered")
    );
    assert_eq!(
        begin(&mut db, index_on("nowhere")),
        refused("auto_index has nothing to do for nowhere")
    );
    assert_eq!(
        begin(&mut db, decision("record_compression", "global", DecisionAction::Enable)),
        refused(
            "record_compression cannot be experimented on: enable record compression leaves no old path to compare against"
        )
    );
    assert_eq!(db.experiments_started(), 0);
}

#[test]
fn no_query_is_evidence_for_two_experiments() {
    let mut db = Database::new();
    assert_eq!(begin(&mut db, index_on("users.country")), Ok(1));
    assert_eq!(
        begin(&mut db, index_on("users.age")),
        refused(
            "experiment #1 already covers the same traffic (users), so running one on users too would make each measure the other"
        )
    );
    assert_eq!(
        begin(&mut db, decision("column_store", "global", DecisionAction::Enable)),
        refused(
            "experiment #1 already covers the same traffic (users), so running one globally too would make each measure the other"
        )
    );
    assert_eq!(begin(&mut db, index_on("orders.total")), Ok(2));
    assert_eq!(db.experiments().len(), 2);
    assert_eq!(
        db.trials.under_experiment(),
        vec![
            ("auto_index".to_string(), "users.country".to_string()),
            ("auto_index".to_string(), "orders.total".to_string())
        ]
    );
    let mut global = Database::new();
    assert_eq!(
        begin(&mut global, decision("column_store", "global", DecisionAction::Enable)),
        Ok(1)
    );
    assert_eq!(
        begin(&mut global, index_on("users.age")),
        refused(
            "experiment #1 already covers the same traffic (every collection), so running one on users too would make each measure the other"
        )
    );
}

#[test]
fn a_candidate_is_hidden_until_it_is_promoted() {
    let mut db = building();
    assert!(db.has_index("users", "country"));
    assert_eq!(seen_by_planner(&db), 0, "an unproven index is visible");
    assert_eq!(db.trials.experiment_for("users"), None, "nothing is measured yet");
    db.advance_experiment(1, Phase::Shadow, "");
    assert_eq!(db.trials.experiment_for("users"), Some(1));
    assert_eq!(db.trials.experiment_for("orders"), None);
    let scan = LogicalOp::scan("users");
    assert_eq!(db.query(&scan), Ok(Path::Single(Routing::Shadow(1))));
    assert_eq!(seen_by_planner(&db), 0, "the baseline saw the candidate");
    db.trials.show_candidate(true);
    assert_eq!(seen_by_planner(&db), 1, "the candidate was not shown to its own query");
    let got = db.trials.shadow_done(1, Ok(rows()), Ok(vec![]), 10, 5, "scan users");
    assert_eq!(got, Ok(rows()), "the caller got the candidate's rows");
    assert_eq!(seen_by_planner(&db), 0);
    let e = db.experiment().unwrap();
    assert_eq!((e.baseline_served, e.candidate_served), (1, 1));
    assert!(!e.shadow.is_correct());
    // A query elsewhere is no evidence.
    assert_eq!(db.query(&LogicalOp::scan("orders")), Ok(Path::Single(Routing::Plain)));

    match db.advance_experiment(1, Phase::Promoted, "") {
        Step::Retire(r) => {
            assert!(r.undo.is_none(), "a promoted change was undone");
            let end = db.trials.finish_retiring(r);
            assert!(end.applied);
            assert_eq!(
                end.detail,
                "experiment #1 promoted — 1 trials, 1 divergences, p50 -50.0%, p99 -50.0%, 0 canary queries on the candidate"
            );
        }
        _ => panic!("it did not end"),
    }
    assert_eq!(seen_by_planner(&db), 1);
    assert_eq!((db.promoted_count(), db.reverted_count()), (1, 0));
    assert_eq!(db.finished_experiments().len(), 1);
    assert!(db.experiment().is_none());
}

#[test]
fn a_canary_serves_its_share() {
    let mut db = building();
    db.advance_experiment(1, Phase::Canary(50), "");
    let scan = LogicalOp::scan("users");
    let mut candidates = 0;
    for _ in 0..10 {
        match db.query(&scan).unwrap() {
            Path::Single(Routing::Canary { id, candidate }) => {
                assert_eq!(id, 1);
                assert_eq!(seen_by_planner(&db), if candidate { 1 } else { 0 });
                candidates += candidate as u64;
                db.trials.canary_done(1, candidate, true);
                assert_eq!(seen_by_planner(&db), 0);
            }
            other => panic!("{other:?}"),
        }
    }
    assert_eq!(candidates, 5);
    db.fold_experiment(1, 100, 200, 50, 90);
    let e = db.experiment().unwrap();
    assert_eq!((e.baseline.samples, e.candidate.samples), (5, 5));
    assert_eq!(e.candidate.p99_nanos, 90);
    assert_eq!(e.candidate.ram_bytes, 64, "the candidate's own cost is one entry");
    // Each phase earns its own promotion.
    db.advance_experiment(1, Phase::Canary(100), "");
    assert_eq!(db.experiment().unwrap().candidate_served, 0);
}

#[test]
fn a_reverted_change_is_undone_before_it_is_unmasked() {
    let mut db = building();
    match db.advance_experiment(1, Phase::Reverted, "it was slower") {
        Step::Retire(r) => {
            let undo = r.undo.as_ref().expect("something to undo");
            assert_eq!(undo.action, DecisionAction::Disable);
            assert_eq!(undo.trigger, "experiment #1 reverted: it was slower");
            assert_eq!(r.live.candidates.describe(), "hash index on users.country");
            let gone = Action::DropIndex {
                collection: "users".into(),
                field: "country".into(),
                kind: IndexKind::Hash,
            };
            db.apply_action(&gone, &everything(), DEFAULT_HEADROOM, &eval).unwrap();
            let end = db.trials.finish_retiring(r);
            assert!(!end.applied);
            assert_eq!(end.detail, "experiment #1 reverted — it was slower");
        }
        _ => panic!("it did not end"),
    }
    assert!(!db.has_index("users", "country"));
    assert_eq!(db.reverted_count(), 1);
}

#[test]
fn a_build_with_nothing_to_compare_is_given_up() {
    let mut db = Database::new();
    begin(&mut db, index_on("users.country")).unwrap();
    db.advance_experiment(1, Phase::Building, "");
    let r = db.trials.finish_build(1, true, &vec![]).expect("nothing was built");
    assert_eq!(
        r.why,
        "the change built nothing that can be held beside the current representation"
    );
    assert!(r.undo.is_none());
    db.trials.finish_retiring(r);

    begin(&mut db, index_on("users.country")).unwrap();
    db.advance_experiment(2, Phase::Building, "");
    let said = vec![("auto_index".to_string(), "gated".to_string())];
    let r = db.trials.finish_build(2, false, &said).expect("it was refused");
    assert_eq!(r.why, "the controller refused it (auto_index: gated)");
    db.trials.finish_retiring(r);
    assert_eq!(db.reverted_count(), 2);
    assert_eq!(db.experiments_started(), 2);
}

#[test]
fn experiments_explain_themselves() {
    let mut db = Database::new();
    assert_eq!(db.explain_experiment(&vec![]), "no experiments\n");
    begin(&mut db, index_on("users.country")).unwrap();
    begin(&mut db, index_on("orders.total")).unwrap();
    let heads = vec!["one\n".to_string(), "two\n".to_string()];
    let body = "  candidate: nothing\n  shadow: no trials run\n  served: 0 baseline, 0 candidate\n";
    assert_eq!(
        db.explain_experiment(&heads),
        format!("one\n{body}\ntwo\n{body}")
    );
    let left = db.abort_experiment("shutting down");
    assert_eq!(left.len(), 2);
    for r in left {
        assert_eq!(r.live.phase, Phase::Reverted);
        db.trials.finish_retiring(r);
    }
    assert_eq!(db.experiments().len(), 0);
    assert_eq!(db.explain_experiment(&vec!["two\n".to_string()]), format!("two\n{body}"));
    assert!(db.abort_experiment_by_id(9, "no such").is_none());
}

#[test]
fn one_decision_a_cycle_is_held_back_to_be_proved() {
    let mut db = Database::new();
    let proposals = vec![
        (decision("plan_cache", "global", DecisionAction::Enable), None),
        (index_on("users.country"), None),
        (index_on("orders.total"), None),
    ];
    assert_eq!(db.trials.held_back(&proposals, &ctx()), Some(1));
    assert!(!is_shadowable(&proposals[0].0, &ctx(), None));
    assert!(is_shadowable(&proposals[1].0, &ctx(), None));
    begin(&mut db, index_on("users.country")).unwrap();
    assert_eq!(db.trials.held_back(&proposals, &ctx()), None);
}
