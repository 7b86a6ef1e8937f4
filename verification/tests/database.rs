use adabt_engine::action::{Action, IndexKind};
use adabt_engine::applying::{can_apply, fixed_size_collections, Remaining};
use adabt_engine::caches::Rows;
use adabt_engine::database::{cluster_key, Database};
use adabt_engine::error::Error;
use adabt_engine::expr::{CmpOp, Expr};
use adabt_engine::index::Limit;
use adabt_engine::indexing::IndexSpec;
use adabt_engine::infer::DEFAULT_HEADROOM;
use adabt_engine::managing::{freeze_schema, Constraining, Refusal};
use adabt_engine::names::{
    classify_index, composite_name, covering_name, partial_name, IndexShape,
};
use adabt_engine::opening::index_cache_key;
use adabt_engine::plan::{Agg, AggKind, LogicalOp};
use adabt_engine::policy::{Mode, Policy};
use adabt_engine::queries::QueryMode;
use adabt_engine::record::Record;
use adabt_engine::schema::{FieldDef, FieldType, Schema, SchemaMode};
use adabt_engine::strmap::StrMap;
use adabt_engine::structures::{Collection, ColumnCell};
use adabt_engine::unique::UniqueConstraints;
use adabt_engine::value::Value;

fn eval(e: &Expr, r: &Record) -> bool {
    match e {
        Expr::Compare { op: CmpOp::Eq, lhs, rhs } => match (&**lhs, &**rhs) {
            (Expr::Field(f), Expr::Literal(v)) => r.get(f) == Some(v),
            _ => false,
        },
        _ => false,
    }
}

fn user(name: &str, age: i64) -> Record {
    Record::new().with("name", Value::text(name)).with("age", Value::I64(age))
}

fn users() -> Rows {
    vec![(1, user("ann", 30)), (2, user("bob", 42)), (5, user("cat", 30))]
}

fn db_with_users() -> Database {
    let mut db = Database::new();
    for (id, rec) in &users() {
        db.insert("users", *id, rec, &eval);
    }
    db
}

fn fixed_schema() -> Schema {
    Schema::new(
        SchemaMode::Fixed,
        vec![
            FieldDef { name: "name".into(), ty: FieldType::Char(16), required: true },
            FieldDef { name: "age".into(), ty: FieldType::I64, required: true },
        ],
    )
    .unwrap()
}

fn everything() -> Vec<Collection> {
    vec![Collection { name: "users".into(), schema: fixed_schema(), rows: users() }]
}

fn names(list: &[&str]) -> Vec<String> {
    list.iter().map(|s| s.to_string()).collect()
}

#[test]
fn an_index_keeps_up_with_every_write() {
    let mut db = db_with_users();
    assert!(!db.needs_old_record("users"));
    assert_eq!(db.create_index("users", true, "age", IndexKind::BTree, &users(), &eval), Ok(true));
    assert_eq!(db.create_index("users", true, "age", IndexKind::BTree, &users(), &eval), Ok(false));
    assert!(db.needs_old_record("users"));
    let d = &db.derived;
    assert_eq!(d.index_lookup("users", "age", &Value::I64(30), 0), Some(vec![1, 5]));

    db.update("users", 5, Some(&user("cat", 30)), &user("cat", 31), &eval);
    db.insert("users", 9, &user("dan", 31), &eval);
    db.delete("users", 2, Some(&user("bob", 42)), &eval);
    let d = &db.derived;
    assert_eq!(d.index_lookup("users", "age", &Value::I64(30), 0), Some(vec![1]));
    assert_eq!(d.index_lookup("users", "age", &Value::I64(31), 0), Some(vec![5, 9]));
    assert_eq!(d.index_lookup("users", "age", &Value::I64(42), 0), Some(vec![]));
    assert_eq!(d.index_lookup("users", "name", &Value::text("ann"), 0), None);
    assert_eq!(
        d.index_range(
            "users",
            "age",
            &Limit::Included(Value::I64(30)),
            &Limit::Excluded(Value::I64(31))
        ),
        Some(vec![1])
    );

    let now: Rows = vec![(1, user("ann", 30)), (5, user("cat", 31)), (9, user("dan", 31))];
    let all = vec![Collection { name: "users".into(), schema: Schema::dynamic(), rows: now }];
    assert!(db.verify(&all, &eval).problems.is_empty());
    assert_eq!(db.epoch("users"), 6);
    assert_eq!(db.epoch("orders"), 0);
}

#[test]
fn a_batch_is_as_good_as_its_records_one_at_a_time() {
    let mut one = Database::new();
    one.create_index("users", true, "age", IndexKind::Hash, &vec![], &eval).unwrap();
    let mut many = Database::new();
    many.create_index("users", true, "age", IndexKind::Hash, &vec![], &eval).unwrap();
    for (id, rec) in &users() {
        one.insert("users", *id, rec, &eval);
    }
    assert!(many.prepare_batch("users", &vec![], &users()).is_none());
    many.insert_batch("users", &users(), &eval);
    for age in [30, 42] {
        assert_eq!(
            one.derived.index_lookup("users", "age", &Value::I64(age), 0),
            many.derived.index_lookup("users", "age", &Value::I64(age), 0)
        );
    }
    assert_eq!(one.epoch("users"), 3);
    assert_eq!(many.epoch("users"), 1);
}

#[test]
fn an_index_is_refused_where_it_makes_no_sense() {
    let mut db = db_with_users();
    assert_eq!(
        db.create_index("ghosts", false, "age", IndexKind::Hash, &vec![], &eval),
        Err(Error::NoSuchCollection("ghosts".into()))
    );
    assert_eq!(
        db.create_composite_index("users", true, names(&["age"]), &users(), &eval),
        Err(Error::InvalidOptimization(
            "a composite index needs at least two fields; use create_index for one".into()
        ))
    );
    assert_eq!(
        db.create_covering_index("users", true, "age", &vec![], IndexKind::Hash, &users(), &eval),
        Err(Error::InvalidOptimization(
            "a covering index must carry at least one field; use create_index for none".into()
        ))
    );
}

#[test]
fn a_composite_index_answers_for_all_its_fields() {
    let mut db = db_with_users();
    let fields = names(&["name", "age"]);
    assert_eq!(
        db.create_composite_index("users", true, names(&["name", "age"]), &users(), &eval),
        Ok(true)
    );
    let key = Value::List(vec![Value::text("cat"), Value::I64(30)]);
    assert_eq!(db.derived.composite_lookup("users", &fields, &key), Some(vec![5]));
    assert!(db.has_index("users", &composite_name(&fields)));
    assert_eq!(db.index_kind("users", &composite_name(&fields)), Some(IndexKind::Hash));
}

#[test]
fn a_covering_index_answers_without_the_records() {
    let mut db = db_with_users();
    let carried = names(&["name"]);
    assert_eq!(
        db.create_covering_index("users", true, "age", &carried, IndexKind::BTree, &users(), &eval),
        Ok(true)
    );
    let got = db
        .derived
        .covering_lookup("users", "age", &Value::I64(30), &names(&["name", "age"]))
        .unwrap();
    assert_eq!(got, vec![(1, user("ann", 30)), (5, user("cat", 30))]);
    // A field it does not carry is not its to answer for.
    assert!(db
        .derived
        .covering_lookup("users", "age", &Value::I64(30), &names(&["email"]))
        .is_none());
    let got = db
        .derived
        .covering_range(
            "users",
            "age",
            &Limit::Excluded(Value::I64(30)),
            &Limit::Unbounded,
            &names(&["name"]),
        )
        .unwrap();
    assert_eq!(got, vec![(2, user("bob", 42))]);
}

#[test]
fn dropping_an_index_says_whether_there_was_one() {
    let mut db = db_with_users();
    db.create_index("users", true, "age", IndexKind::Hash, &users(), &eval).unwrap();
    db.create_index("users", true, "name", IndexKind::BTree, &users(), &eval).unwrap();
    assert_eq!(
        db.index_specs(),
        vec![
            IndexSpec { collection: "users".into(), field: "age".into(), kind: IndexKind::Hash },
            IndexSpec { collection: "users".into(), field: "name".into(), kind: IndexKind::BTree },
        ]
    );
    assert!(!db.drop_index("users", "age", IndexKind::BTree));
    assert!(db.drop_index("users", "age", IndexKind::Hash));
    assert!(!db.has_index("users", "age"));
    assert!(db.has_index("users", "name"));
    assert_eq!(db.plan_cache_stats().invalidations, 3);
}

#[test]
fn a_unique_constraint_is_kept() {
    let mut db = db_with_users();
    match db.add_unique_constraint("users", true, "age", &users(), &eval) {
        Err(Refusal::Shared(b)) => {
            let e = b.error("users", &format!("{:?}", b.value));
            assert_eq!(
                e,
                Error::UniqueViolation {
                    collection: "users".into(),
                    field: "age".into(),
                    value: "I64(30) (already held by record 1, and by 5)".into(),
                }
            );
        }
        _ => panic!("ages are shared"),
    }
    let added = db.add_unique_constraint("users", true, "name", &users(), &eval);
    assert!(matches!(added, Ok(Constraining::Added { indexed: true })));
    let again = db.add_unique_constraint("users", true, "name", &users(), &eval);
    assert!(matches!(again, Ok(Constraining::Already)));
    assert!(db.has_unique_constraint("users", "name"));
    assert_eq!(db.unique_constraints(), vec![("users", "name")]);
    assert_eq!(db.pinned_scopes(), names(&["users.name"]));

    let twin = user("bob", 7);
    match db.prepare_insert("users", &vec![], &twin, &twin) {
        Err(b) => assert_eq!(
            b.error("users", "Str(\"bob\")"),
            Error::UniqueViolation {
                collection: "users".into(),
                field: "name".into(),
                value: "Str(\"bob\")".into(),
            }
        ),
        Ok(_) => panic!("bob is taken"),
    }
    // A record may keep its own value.
    assert!(db.prepare_update("users", &vec![], 2, &twin).is_none());
    assert!(db.prepare_update("users", &vec![], 1, &twin).is_some());

    let batch: Rows = vec![(7, user("eve", 1)), (8, user("eve", 2))];
    let b = db.prepare_batch("users", &vec![], &batch).expect("eve is there twice");
    assert_eq!(
        b.error("users", "Str(\"eve\")"),
        Error::UniqueViolation {
            collection: "users".into(),
            field: "name".into(),
            value: "Str(\"eve\") (shared within this batch by records 7 and 8)".into(),
        }
    );
    assert!(db.drop_unique_constraint("users", "name"));
    assert!(!db.drop_unique_constraint("users", "name"));
    assert!(db.prepare_insert("users", &vec![], &twin, &twin).is_ok());
    assert!(matches!(
        db.add_unique_constraint("ghosts", false, "name", &vec![], &eval),
        Err(Refusal::Failed(Error::NoSuchCollection(_)))
    ));
}

#[test]
fn a_record_is_placed_by_the_integer_it_holds() {
    let mut db = Database::new();
    assert_eq!(db.cluster_field("users"), None);
    assert_eq!(db.declare_cluster_field("users", true, "age"), Ok(()));
    assert_eq!(db.cluster_field("users"), Some("age"));
    let r = user("ann", 30);
    assert!(matches!(db.prepare_insert("users", &vec![], &r, &r), Ok(Some(30))));
    assert!(matches!(db.prepare_insert("orders", &vec![], &r, &r), Ok(None)));
    db.clear_cluster_field("users");
    assert!(matches!(db.prepare_insert("users", &vec![], &r, &r), Ok(None)));
    assert_eq!(
        db.declare_cluster_field("ghosts", false, "age"),
        Err(Error::NoSuchCollection("ghosts".into()))
    );
    let big = Record::new().with("n", Value::U64(u64::MAX)).with("s", Value::text("x"));
    assert_eq!(cluster_key("n", &big), None);
    assert_eq!(cluster_key("s", &big), None);
    let small = Record::new().with("n", Value::U64(7));
    assert_eq!(cluster_key("n", &small), Some(7));
}

#[test]
fn one_read_in_sixteen_is_sampled() {
    let mut db = Database::new();
    let sampled: Vec<usize> = (1..=48).filter(|_| db.note_touch()).collect();
    assert_eq!(sampled, vec![16, 32, 48]);
}

#[test]
fn a_direct_array_answers_reads() {
    let mut db = db_with_users();
    assert!(db.get("users", 1).is_none(), "there is no array to read from");
    let done = db.apply_action(
        &Action::SetDirectLookup(true),
        &everything(),
        DEFAULT_HEADROOM,
        &eval,
    );
    assert!(matches!(done, Ok(Remaining::Nothing)));
    assert!(db.has_direct_array("users"));
    assert_eq!(db.get("users", 1), Some(Ok(Some(user("ann", 30)))));
    assert_eq!(db.fetch("users", 3), Some(Ok(None)));
    assert_eq!(db.field_of("users", 2, "age"), Some(Ok(Some(Value::I64(42)))));
    assert_eq!(db.peek_field("users", 2, "age"), Some(Ok(Some(Some(Value::I64(42))))));
    assert_eq!(db.peek_field("users", 3, "age"), Some(Ok(None)));
    assert_eq!(db.peek_field("users", 2, "email"), Some(Ok(Some(None))));
    assert_eq!(
        db.fetch_projected("users", 5, &names(&["age"])),
        Some(Ok(Some(Record::new().with("age", Value::I64(30)))))
    );
    assert_eq!(db.fetch_projected("users", 5, &vec![]), Some(Ok(Some(Record::new()))));

    db.delete("users", 2, None, &eval);
    assert_eq!(db.get("users", 2), Some(Ok(None)));
    // A record that does not fit means the array no longer matches: it goes.
    db.insert("users", 8, &Record::new().with("name", Value::I64(1)), &eval);
    assert!(!db.has_direct_array("users"));
}

#[test]
fn a_new_collection_gets_the_array_it_was_promised() {
    let mut db = Database::new();
    db.create_collection("plain", Schema::dynamic(), true);
    db.create_collection("off", fixed_schema(), false);
    db.create_collection("on", fixed_schema(), true);
    assert!(!db.has_direct_array("plain"));
    assert!(!db.has_direct_array("off"));
    assert!(db.has_direct_array("on"));
    db.vacuum();
    assert!(!db.has_direct_array("on"));
}

#[test]
fn a_schema_change_takes_everything_derived_with_it() {
    let mut db = db_with_users();
    db.create_index("users", true, "age", IndexKind::Hash, &users(), &eval).unwrap();
    for a in [Action::SetDirectLookup(true), Action::SetColumnStore(true)] {
        assert!(db.apply_action(&a, &everything(), DEFAULT_HEADROOM, &eval).is_ok());
    }
    assert!(db.has_column_store("users"));
    assert_eq!(db.column_store_collections(), 1);
    let before = db.epoch("users");
    db.alter_schema("users");
    assert!(!db.has_index("users", "age"));
    assert!(!db.has_direct_array("users"));
    assert!(!db.has_column_store("users"));
    assert_eq!(db.epoch("users"), before + 1);
    db.drop_collection("users");
    assert_eq!(db.epoch("users"), before + 2);
    assert_eq!(db.index_memory_bytes(), 0);
}

#[test]
fn freezing_refuses_what_is_as_rigid_already() {
    let recs: Vec<Record> = users().into_iter().map(|(_, r)| r).collect();
    let frozen = freeze_schema("users", &recs, DEFAULT_HEADROOM, SchemaMode::Dynamic).unwrap();
    assert_eq!(frozen.schema.mode(), SchemaMode::Fixed);
    assert_eq!(frozen.records_sampled, recs.len());
    assert!(!frozen.universal_fields.is_empty() && frozen.rejected.is_empty());
    assert_eq!(
        freeze_schema("users", &recs, DEFAULT_HEADROOM, SchemaMode::Fixed).err(),
        Some(Error::InvalidOptimization(
            "users is already Fixed; inference concluded Fixed".into()
        ))
    );
}

#[test]
fn changes_are_carried_out_and_what_is_left_is_said() {
    let mut db = db_with_users();
    let all = everything();
    let mut apply = |a: Action| db.apply_action(&a, &all, DEFAULT_HEADROOM, &eval);
    let index = |kind| Action::CreateIndex {
        collection: "users".into(),
        field: "age".into(),
        kind,
    };
    assert!(matches!(apply(index(IndexKind::Hash)), Ok(Remaining::RecordIndex)));
    assert!(matches!(apply(index(IndexKind::Hash)), Ok(Remaining::Nothing)));
    let gone = Action::DropIndex {
        collection: "users".into(),
        field: "age".into(),
        kind: IndexKind::Hash,
    };
    assert!(matches!(apply(gone), Ok(Remaining::ForgetIndex)));
    assert!(matches!(apply(Action::SetBufferPoolPages(9)), Ok(Remaining::SetPoolPages(9))));
    assert!(matches!(apply(Action::SetPlanCacheEntries(4)), Ok(Remaining::Nothing)));
    assert!(matches!(apply(Action::SetResultCacheEntries(4)), Ok(Remaining::Nothing)));
    assert!(matches!(apply(Action::SetPrefetch(true)), Ok(Remaining::Prefetch(true))));
    assert!(matches!(
        apply(Action::SetRecordCompression(true)),
        Ok(Remaining::Compression(true))
    ));
    assert!(matches!(apply(Action::SetDeltaEncoding(false)), Ok(Remaining::DeltaEncoding(false))));
    assert!(matches!(apply(Action::SetThreadPerCore(true)), Ok(Remaining::ThreadPerCore(true))));
    assert!(matches!(apply(Action::SetJoinOrder(true)), Ok(Remaining::Nothing)));
    assert!(matches!(apply(Action::SetDataPartitioning(true)), Ok(Remaining::Nothing)));
    assert!(matches!(apply(Action::SetMaterializedViews(true)), Ok(Remaining::Nothing)));
    let by_age = Action::SetClusterField { collection: "users".into(), field: "age".into() };
    assert!(matches!(apply(by_age), Ok(Remaining::PlaceBy)));
    let anywhere = Action::ClearClusterField { collection: "users".into() };
    assert!(matches!(apply(anywhere), Ok(Remaining::PlaceAnywhere)));
    let rigid = Action::FreezeSchema { collection: "users".into() };
    assert!(matches!(apply(rigid), Err(Error::InvalidOptimization(_))));
    let ghost = Action::FreezeSchema { collection: "ghosts".into() };
    assert!(matches!(apply(ghost), Err(Error::NoSuchCollection(_))));
    assert!(!db.is_delta_encoding());
    assert!(db.is_thread_per_core());
    assert!(db.is_join_order());
    assert!(db.is_data_partitioning());
    assert!(db.derived.views.is_enabled());
    assert!(db.plan_cache.enabled());
    assert!(db.result_cache.enabled());
}

#[test]
fn a_change_is_only_possible_where_its_subject_is() {
    let all = everything();
    let index = |c: &str| Action::CreateIndex {
        collection: c.into(),
        field: "age".into(),
        kind: IndexKind::Hash,
    };
    assert!(can_apply(&index("users"), &all));
    assert!(!can_apply(&index("ghosts"), &all));
    assert!(can_apply(&Action::SetDirectLookup(true), &all));
    assert!(!can_apply(&Action::SetDirectLookup(true), &vec![]));
    assert!(can_apply(&Action::SetDirectLookup(false), &vec![]));
    assert!(can_apply(&Action::SetPrefetch(true), &vec![]));
    assert_eq!(fixed_size_collections(&all), names(&["users"]));
}

#[test]
fn a_saved_index_comes_back() {
    let mut db = db_with_users();
    db.create_index("users", true, "age", IndexKind::BTree, &users(), &eval).unwrap();
    let saved = db.save_derived();
    assert_eq!(saved.len(), 1);
    assert_eq!(saved[0].0, "idx:users:age:btree");
    assert_eq!(index_cache_key("users", "age", IndexKind::BTree), saved[0].0);

    let mut unique = UniqueConstraints::default();
    unique.add("users", "name");
    let placed = vec![("users".to_string(), "age".to_string())];
    let mut back = Database::open(unique, &placed, false, true);
    assert!(back.has_unique_constraint("users", "name"));
    assert_eq!(back.cluster_field("users"), Some("age"));
    assert!(!back.is_delta_encoding());
    assert!(back.is_thread_per_core());
    // From the cache: no record is handed over at all.
    let r = back.restore_index("users", true, "age", "btree", &saved, &vec![], &eval);
    assert_eq!(r, Ok(true));
    assert_eq!(
        back.derived.index_lookup("users", "age", &Value::I64(30), 0),
        Some(vec![1, 5])
    );
    // A damaged cache is no cache: the records are read instead.
    let mut damaged = saved;
    damaged[0].1.pop();
    let mut again = Database::open(UniqueConstraints::default(), &vec![], true, false);
    let r = again.restore_index("users", true, "age", "btree", &damaged, &users(), &eval);
    assert_eq!(r, Ok(true));
    assert_eq!(
        again.derived.index_lookup("users", "age", &Value::I64(42), 0),
        Some(vec![2])
    );
    // A kind there is no index of is passed over.
    assert_eq!(
        again.restore_index("users", true, "x", "rtree", &vec![], &users(), &eval),
        Ok(false)
    );
}

#[test]
fn an_index_name_says_what_the_index_is() {
    let covers = names(&["a", "b"]);
    assert!(matches!(classify_index("age"), IndexShape::Ordinary(f) if f == "age"));
    assert!(matches!(
        classify_index(&composite_name(&covers)),
        IndexShape::Composite(fs) if fs == covers
    ));
    // Its name holds the separator of a composite one too.
    assert!(matches!(
        classify_index(&covering_name("f", &covers)),
        IndexShape::Covering(f, c) if f == "f" && c == covers
    ));
    assert!(matches!(
        classify_index(&partial_name("f", "0201")),
        IndexShape::Partial(f, hex) if f == "f" && hex == "0201"
    ));
}

#[test]
fn a_planner_is_told_what_there_is() {
    let mut db = db_with_users();
    db.create_index("users", true, "age", IndexKind::Hash, &users(), &eval).unwrap();
    db.create_composite_index("users", true, names(&["name", "age"]), &users(), &eval).unwrap();
    db.create_covering_index(
        "users",
        true,
        "age",
        &names(&["name"]),
        IndexKind::BTree,
        &users(),
        &eval,
    )
    .unwrap();
    let grown = Expr::compare("age", CmpOp::Eq, Value::I64(30));
    db.create_partial_index("users", true, "name", grown, IndexKind::Hash, &users(), &eval).unwrap();
    db.apply_action(&Action::SetColumnStore(true), &everything(), DEFAULT_HEADROOM, &eval).unwrap();
    let mut live: StrMap<u64> = StrMap::new();
    live.put("users", 3);
    live.put("elsewhere", 9);
    let x = db.plan_context(&live);
    let users = x.collections.get("users").unwrap();
    assert_eq!(users.indexes.len(), 4);
    assert_eq!(users.cardinality.get("age"), Some(&2));
    assert_eq!(users.composite, vec![names(&["name", "age"])]);
    assert_eq!(users.covering.len(), 1);
    assert_eq!(users.covering[0].covers, names(&["age", "name"]));
    assert_eq!(users.partial.len(), 1);
    assert_eq!(users.partial[0].condition, Expr::compare("age", CmpOp::Eq, Value::I64(30)));
    assert_eq!(x.columnar.get("users"), Some(&names(&["age", "name"])));
    assert_eq!(x.row_counts.get("users"), Some(&3));
    assert_eq!(x.row_counts.get("elsewhere"), None);
}

#[test]
fn the_optimizer_is_told_what_there_is() {
    let mut db = db_with_users();
    db.create_index("users", true, "age", IndexKind::Hash, &users(), &eval).unwrap();
    let ctx = db.opt_inputs(&everything(), vec![], vec![], 3, 10, 4096);
    assert_eq!(ctx.current_bytes, 4096 + db.derived_memory_bytes() as u64);
    assert_eq!(ctx.collections, vec![("users".to_string(), 3)]);
    assert_eq!(ctx.fixed_size_collections[0].span, 6);
    assert_eq!(ctx.fixed_size_collections[0].rows, 3);
    assert_eq!(
        ctx.existing_indexes,
        vec![("users".to_string(), "age".to_string(), IndexKind::Hash)]
    );
    assert_eq!((ctx.writes, ctx.operations), (3, 10));
}

#[test]
fn what_is_derived_is_accounted_for() {
    let mut db = db_with_users();
    assert_eq!(db.derived_memory_bytes(), 0);
    db.create_index("users", true, "age", IndexKind::Hash, &users(), &eval).unwrap();
    assert_eq!(db.derived_memory_bytes(), 3 * 64);
    assert_eq!(db.index_memory_bytes(), 3 * 64);
    assert_eq!(db.materialized_views(), 0);
    assert_eq!(db.explain_materialized_views(), "no materialized views");
    assert_eq!(db.compiled_paths(), 0);
    assert_eq!(db.compiled_hits(), 0);
    db.set_plan_cache_entries(2);
    db.set_result_cache_entries(3);
    assert_eq!(db.plan_cache.capacity(), 2);
    assert_eq!(db.result_cache.capacity(), 3);
    assert_eq!(db.result_cache_stats().hits, 0);
    let (dead, rows) = db.column_store_dead_fraction();
    assert_eq!((dead, rows).0, 0);
}

#[test]
fn no_change_breaks_agreement() {
    let mut db = db_with_users();
    let field = || ("users".to_string(), "age".to_string());
    let index = |kind: IndexKind| {
        let (collection, field) = field();
        Action::CreateIndex { collection, field, kind }
    };
    let gone = {
        let (collection, field) = field();
        Action::DropIndex { collection, field, kind: IndexKind::Hash }
    };
    let changes = vec![
        index(IndexKind::Hash),
        index(IndexKind::BTree),
        Action::SetDirectLookup(true),
        Action::SetColumnStore(true),
        Action::SetMaterializedViews(true),
        Action::SetResultCacheEntries(4),
        gone,
        Action::SetDirectLookup(false),
        Action::SetColumnStore(false),
        Action::SetMaterializedViews(false),
    ];
    for (i, a) in changes.iter().enumerate() {
        assert!(db.apply_action(a, &everything(), DEFAULT_HEADROOM, &eval).is_ok());
        let report = db.verify(&everything(), &eval);
        assert!(report.problems.is_empty(), "after {}", a.describe());
        if i == 3 {
            assert_eq!(
                db.derived.column_scan("users", &names(&["age"])),
                Some(vec![
                    (1, Record::new().with("age", Value::I64(30))),
                    (2, Record::new().with("age", Value::I64(42))),
                    (5, Record::new().with("age", Value::I64(30))),
                ])
            );
        }
    }
    assert_eq!(db.index_specs().len(), 1);
}

#[test]
fn every_derived_structure_is_counted() {
    let mut db = db_with_users();
    let none = db.derived_memory_bytes();
    for a in [Action::SetColumnStore(true), Action::SetDirectLookup(true)] {
        let before = db.derived_memory_bytes();
        db.apply_action(&a, &everything(), DEFAULT_HEADROOM, &eval).unwrap();
        assert!(db.derived_memory_bytes() > before, "after {}", a.describe());
    }
    db.apply_action(&Action::SetMaterializedViews(true), &everything(), DEFAULT_HEADROOM, &eval)
        .unwrap();
    let by_age = LogicalOp::Aggregate {
        input: Box::new(LogicalOp::scan("users")),
        group_by: names(&["age"]),
        aggs: vec![Agg { kind: AggKind::Count, field: None, output: "n".into() }],
    };
    let before = db.derived_memory_bytes();
    let records: Vec<Record> = users().into_iter().map(|(_, r)| r).collect();
    db.finish_query(&by_age, 1, QueryMode::Normal, &vec![], Some(&records));
    assert_eq!(db.materialized_views(), 1);
    assert!(db.derived_memory_bytes() > before);
    db.drop_collection("users");
    assert_eq!(db.derived_memory_bytes(), none);
}

#[test]
fn making_and_dropping_an_index_leaves_what_there_was() {
    let mut db = db_with_users();
    db.create_index("users", true, "name", IndexKind::Hash, &users(), &eval).unwrap();
    let before = db.index_specs();
    assert_eq!(db.create_index("users", true, "age", IndexKind::BTree, &users(), &eval), Ok(true));
    assert_ne!(db.index_specs(), before);
    assert!(db.drop_index("users", "age", IndexKind::BTree));
    assert_eq!(db.index_specs(), before);
}

#[test]
fn a_database_opened_again_has_what_it_had() {
    let mut db = db_with_users();
    db.add_unique_constraint("users", true, "name", &users(), &eval).map_err(|_| ()).unwrap();
    db.create_index("users", true, "age", IndexKind::BTree, &users(), &eval).unwrap();
    db.create_composite_index("users", true, names(&["name", "age"]), &users(), &eval).unwrap();
    let cached = db.save_derived();
    let saved = adabt_engine::unique::write(&db.unique_constraints);
    let constraints = adabt_engine::unique::read(Some(&saved));
    let mut again = Database::open(constraints, &vec![], true, false);
    for s in db.index_specs() {
        let kind = s.kind.as_str();
        assert_eq!(
            again.restore_index(&s.collection, true, &s.field, kind, &cached, &users(), &eval),
            Ok(true)
        );
    }
    assert_eq!(again.index_specs(), db.index_specs());
    assert_eq!(again.unique_constraints(), db.unique_constraints());
    assert_eq!(
        again.derived.index_lookup("users", "age", &Value::I64(30), 0),
        Some(vec![1, 5])
    );
}

/// Folding the records gives what the copy and the view give.
#[test]
fn an_aggregate_has_one_answer() {
    let rows = || -> Rows {
        vec![
            (1, Record::new().with("g", Value::text("x")).with("n", Value::I64(4))),
            (2, Record::new().with("g", Value::text("y")).with("n", Value::Null)),
            (3, Record::new().with("g", Value::text("x")).with("n", Value::I64(6))),
            (4, Record::new().with("g", Value::text("y"))),
        ]
    };
    let all = vec![Collection { name: "c".into(), schema: Schema::dynamic(), rows: rows() }];
    let mut db = Database::new();
    for (id, rec) in &rows() {
        db.insert("c", *id, rec, &eval);
    }
    db.apply_action(&Action::SetColumnStore(true), &all, DEFAULT_HEADROOM, &eval).unwrap();
    let ask = |a: Agg| {
        let rows = db.derived.column_aggregate("c", &names(&["g"]), &vec![a], None, &eval).unwrap();
        rows.into_iter().map(|r| r.cells.into_iter().nth(1).unwrap().1).collect::<Vec<_>>()
    };
    let null = || ColumnCell::Value(Value::Null);
    // Text is no number: a sum or a mean of it is of nothing.
    assert_eq!(ask(over(AggKind::Sum, "g")), vec![null(), null()]);
    assert_eq!(ask(over(AggKind::Avg, "g")), vec![null(), null()]);
    assert_eq!(
        ask(over(AggKind::Sum, "n")),
        vec![ColumnCell::Sum { whole: 10, rest: vec![] }, null()]
    );
    assert_eq!(
        ask(over(AggKind::Avg, "n")),
        vec![ColumnCell::Mean { whole: 10, rest: vec![], count: 2 }, null()]
    );
    assert_eq!(
        ask(over(AggKind::Count, "g")),
        vec![ColumnCell::Value(Value::U64(2)), ColumnCell::Value(Value::U64(2))]
    );
    assert_eq!(
        db.derived.column_topk("c", "g", true, 3),
        Some(vec![2, 4, 1]),
        "by value, and by id between equals"
    );
}

fn over(kind: AggKind, field: &str) -> Agg {
    Agg { kind, field: Some(field.to_string()), output: "out".into() }
}

/// A copy that passed over a value is not asked for the field: the records are.
#[test]
fn a_copy_is_not_asked_for_what_it_does_not_keep() {
    let first: Rows = vec![(1, Record::new().with("v", Value::I64(1)).with("w", Value::I64(1)))];
    let all = vec![Collection { name: "c".into(), schema: Schema::dynamic(), rows: first }];
    let mut db = Database::new();
    db.apply_action(&Action::SetColumnStore(true), &all, DEFAULT_HEADROOM, &eval).unwrap();
    let sum = |db: &Database, f: &str| {
        db.derived.column_aggregate("c", &vec![], &vec![over(AggKind::Sum, f)], None, &eval)
    };
    let by = |db: &Database, f: &str| {
        db.derived.column_aggregate("c", &names(&[f]), &vec![], None, &eval).map(|r| r.len())
    };
    let tested = |db: &Database, f: &str| {
        let p = Expr::Compare {
            op: CmpOp::Eq,
            lhs: Box::new(Expr::Field(f.into())),
            rhs: Box::new(Expr::Literal(Value::I64(1))),
        };
        db.derived.column_aggregate("c", &vec![], &vec![], Some(&p), &eval).is_some()
    };
    assert!(sum(&db, "v").is_some() && by(&db, "v") == Some(1) && tested(&db, "v"));
    assert_eq!(db.derived.column_topk("c", "v", false, 1), Some(vec![1]));

    let mixed = Record::new().with("v", Value::U64(5)).with("w", Value::Null);
    db.insert("c", 2, &mixed, &eval);
    // Five was not kept, so neither a sum nor a group nor an order can be told.
    assert!(sum(&db, "v").is_none());
    assert_eq!(by(&db, "v"), None);
    assert!(!tested(&db, "v"));
    assert_eq!(db.derived.column_topk("c", "v", false, 1), None);
    assert_eq!(db.derived.column_scan("c", &names(&["w", "v"])), None);
    // A null counts as absent in a sum and a group, but a condition may tell them apart.
    assert_eq!(sum(&db, "w").map(|r| r.len()), Some(1));
    assert_eq!(by(&db, "w"), Some(2));
    assert!(!tested(&db, "w"));
    assert_eq!(db.derived.column_topk("c", "w", false, 1), None);
    assert_eq!(db.derived.column_scan("c", &names(&["w"])), None);
    // Counting rows reads no field.
    let count = Agg { kind: AggKind::Count, field: None, output: "n".into() };
    let rows = db.derived.column_aggregate("c", &vec![], &vec![count], None, &eval).unwrap();
    assert_eq!(rows[0].cells[0].1, ColumnCell::Value(Value::U64(2)));
    // Made again from records that fit, the copy keeps them all.
    let fit: Rows = vec![(1, Record::new().with("v", Value::I64(1)))];
    let all = vec![Collection { name: "c".into(), schema: Schema::dynamic(), rows: fit }];
    db.apply_action(&Action::SetColumnStore(false), &all, DEFAULT_HEADROOM, &eval).unwrap();
    db.apply_action(&Action::SetColumnStore(true), &all, DEFAULT_HEADROOM, &eval).unwrap();
    assert!(sum(&db, "v").is_some());
}

#[test]
fn an_opened_database_has_derived_nothing() {
    let mut db = Database::open(UniqueConstraints::default(), &vec![], true, false);
    let count = LogicalOp::Aggregate {
        input: Box::new(LogicalOp::scan("users")),
        group_by: vec![],
        aggs: vec![Agg { kind: AggKind::Count, field: None, output: "n".into() }],
    };
    assert_eq!(db.materialized_views(), 0);
    assert!(!db.derived.views.is_enabled());
    assert!(db.derived.views.answer(&count).is_none());
    assert!(db.index_specs().is_empty());
    assert!(db.experiments().is_empty());
    assert_eq!(db.derived_memory_bytes(), Database::new().derived_memory_bytes());
    assert!(db.verify(&everything(), &eval).problems.is_empty());
    // No write switches views on.
    for (id, rec) in &users() {
        db.insert("users", *id, rec, &eval);
    }
    db.update("users", 1, None, &users()[0].1, &eval);
    db.delete("users", 2, None, &eval);
    db.insert_batch("users", &vec![(9, Record::new())], &eval);
    assert!(!db.derived.views.is_enabled());
}

/// Two indexes whose cached entries go under one name are both built again.
#[test]
fn one_indexs_entries_are_not_taken_for_anothers() {
    let here: Rows = vec![(1, Record::new().with("b:c", Value::I64(1)))];
    let there: Rows = vec![(7, Record::new().with("c", Value::I64(1)))];
    let mut db = Database::new();
    db.create_index("a", true, "b:c", IndexKind::Hash, &here, &eval).unwrap();
    db.create_index("a:b", true, "c", IndexKind::Hash, &there, &eval).unwrap();
    let saved = db.save_derived();
    assert_eq!(saved[0].0, saved[1].0);
    let mut back = Database::open(UniqueConstraints::default(), &vec![], true, false);
    back.restore_index("a", true, "b:c", "hash", &saved, &here, &eval).unwrap();
    back.restore_index("a:b", true, "c", "hash", &saved, &there, &eval).unwrap();
    assert_eq!(back.derived.index_lookup("a", "b:c", &Value::I64(1), 0), Some(vec![1]));
    assert_eq!(back.derived.index_lookup("a:b", "c", &Value::I64(1), 0), Some(vec![7]));
}

/// Opened again with its cache intact, missing or damaged, a database has the same
/// indexes, finds the same records by them, and is clean.
#[test]
fn a_database_opened_again_agrees_with_its_records() {
    let mut db = db_with_users();
    db.create_index("users", true, "age", IndexKind::BTree, &users(), &eval).unwrap();
    db.create_composite_index("users", true, names(&["name", "age"]), &users(), &eval).unwrap();
    let carried = names(&["name"]);
    db.create_covering_index("users", true, "age", &carried, IndexKind::Hash, &users(), &eval)
        .unwrap();
    let intact = db.save_derived();
    let mut damaged = db.save_derived();
    for d in &mut damaged {
        d.1.pop();
    }
    for cached in [intact, vec![], damaged] {
        let mut again = Database::open(UniqueConstraints::default(), &vec![], true, false);
        for s in db.index_specs() {
            let kind = s.kind.as_str();
            again
                .restore_index(&s.collection, true, &s.field, kind, &cached, &users(), &eval)
                .unwrap();
        }
        assert_eq!(again.index_specs(), db.index_specs());
        assert!(again.verify(&everything(), &eval).problems.is_empty());
        for age in [30, 42, 7] {
            let key = Value::I64(age);
            assert_eq!(
                again.derived.index_lookup("users", "age", &key, 0),
                db.derived.index_lookup("users", "age", &key, 0)
            );
            assert_eq!(
                again.derived.covering_lookup("users", "age", &key, &names(&["name"])),
                db.derived.covering_lookup("users", "age", &key, &names(&["name"]))
            );
        }
    }
}

/// Written the same, a database that was tuned and one that was not answer alike.
#[test]
fn optimization_never_changes_an_answer() {
    let by_age = LogicalOp::Aggregate {
        input: Box::new(LogicalOp::scan("users")),
        group_by: names(&["age"]),
        aggs: vec![Agg { kind: AggKind::Count, field: None, output: "n".into() }],
    };
    let records = |rows: &Rows| rows.iter().map(|(_, r)| r.dup()).collect::<Vec<Record>>();
    let mut tuned = Database::new();
    let mut late = Database::new();
    let switch = Action::SetMaterializedViews(true);
    tuned.apply_action(&switch, &vec![], DEFAULT_HEADROOM, &eval).unwrap();
    tuned.apply_action(&Action::SetResultCacheEntries(4), &vec![], DEFAULT_HEADROOM, &eval).unwrap();
    tuned.finish_query(&by_age, 1, QueryMode::Normal, &vec![], Some(&vec![]));
    for (id, rec) in &users() {
        tuned.insert("users", *id, rec, &eval);
        late.insert("users", *id, rec, &eval);
    }
    let gone = users().into_iter().next().unwrap();
    assert!(tuned.needs_old_record("users"));
    tuned.delete("users", gone.0, Some(&gone.1), &eval);
    late.delete("users", gone.0, None, &eval);
    let left: Rows = users().into_iter().skip(1).collect();
    late.apply_action(&switch, &vec![], DEFAULT_HEADROOM, &eval).unwrap();
    late.finish_query(&by_age, 1, QueryMode::Normal, &vec![], Some(&records(&left)));
    let shown = |db: &Database| {
        db.derived.views.answer(&by_age).unwrap().into_iter().map(|r| (r.id, r.cells)).collect::<Vec<_>>()
    };
    assert_eq!(shown(&tuned), shown(&late));
    assert_eq!(shown(&tuned).len(), 2);
    // What was kept before the writes is not served after them.
    assert_eq!(tuned.result_cache.len(), 0);
}

/// Whatever becomes of a collection beside its records, what is derived of it says what
/// its records say: made with an array, written in a batch, frozen, dropped, vacuumed.
#[test]
fn a_collections_whole_life_leaves_it_truthful() {
    let mut fast = Database::new();
    let mut plain = Database::new();
    fast.create_collection("users", fixed_schema(), true);
    plain.create_collection("users", fixed_schema(), false);
    assert!(fast.has_direct_array("users") && !plain.has_direct_array("users"));
    fast.insert_batch("users", &users(), &eval);
    for (id, rec) in &users() {
        plain.insert("users", *id, rec, &eval);
        assert_eq!(fast.get("users", *id), Some(Ok(Some(rec.dup()))));
    }
    assert_eq!(fast.get("users", 3), Some(Ok(None)));
    assert!(fast.verify(&everything(), &eval).problems.is_empty());
    assert!(plain.verify(&everything(), &eval).problems.is_empty());

    let of_thirty = Expr::compare("age", CmpOp::Eq, Value::I64(30));
    let carried = names(&["name"]);
    for db in [&mut fast, &mut plain] {
        db.create_composite_index("users", true, names(&["name", "age"]), &users(), &eval).unwrap();
        db.create_covering_index("users", true, "age", &carried, IndexKind::BTree, &users(), &eval)
            .unwrap();
        db.create_partial_index("users", true, "name", of_thirty.dup(), IndexKind::Hash, &users(), &eval)
            .unwrap();
        assert!(db.verify(&everything(), &eval).problems.is_empty());
    }
    fast.vacuum();
    assert!(!fast.has_direct_array("users"));
    assert!(fast.verify(&everything(), &eval).problems.is_empty());
    let ann = Value::List(vec![Value::text("ann"), Value::I64(30)]);
    assert_eq!(
        fast.derived.composite_lookup("users", &names(&["name", "age"]), &ann),
        plain.derived.composite_lookup("users", &names(&["name", "age"]), &ann)
    );

    // Frozen, it has nothing derived of it left that could be wrong.
    let records: Vec<Record> = users().into_iter().map(|(_, r)| r).collect();
    let to = freeze_schema("users", &records, DEFAULT_HEADROOM, SchemaMode::Dynamic).unwrap();
    fast.alter_schema("users");
    let frozen = vec![Collection { name: "users".into(), schema: to.schema, rows: users() }];
    assert!(fast.verify(&frozen, &eval).problems.is_empty());
    assert_eq!(fast.index_memory_bytes(), 0);
    fast.drop_collection("users");
    assert!(fast.verify(&vec![], &eval).problems.is_empty());
}

/// A key that nests too deep to be cached is not read back as another: its index is
/// built from the records again.
#[test]
fn a_key_too_deep_to_cache_is_found_again() {
    let mut deep = Value::I64(7);
    for _ in 0..40 {
        deep = Value::List(vec![deep]);
    }
    let rows: Rows = vec![(1, Record::new().with("k", deep.dup())), (2, user("bob", 42))];
    let mut db = Database::new();
    for (id, rec) in &rows {
        db.insert("users", *id, rec, &eval);
    }
    db.create_index("users", true, "k", IndexKind::BTree, &rows, &eval).unwrap();
    let saved = db.save_derived();
    let mut again = Database::open(UniqueConstraints::default(), &vec![], true, false);
    again.restore_index("users", true, "k", "btree", &saved, &rows, &eval).unwrap();
    assert_eq!(again.derived.index_lookup("users", "k", &deep, 0), Some(vec![1]));
    let all = vec![Collection { name: "users".into(), schema: Schema::dynamic(), rows }];
    assert!(again.verify(&all, &eval).problems.is_empty());
}

#[test]
fn a_level_keeps_the_exceptions_that_were_asked_for() {
    let p = Policy { mode: Mode::Manual { level: 1, overrides: names(&["auto_index"]) } };
    assert!(!p.forgets());
    assert_eq!(p.overrides(), Some(&names(&["auto_index"])));
    let p = p.set_level(3);
    assert!(matches!(&p.mode, Mode::Manual { level: 3, overrides } if overrides.len() == 1));
    let q: Policy<String> = Policy { mode: Mode::Adaptive };
    assert!(q.forgets());
    assert_eq!(q.overrides(), None);
    assert!(matches!(q.set_level(2).mode, Mode::Manual { level: 2, overrides } if overrides.is_empty()));
}
