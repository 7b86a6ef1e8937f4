use adabt_engine::action::IndexKind;
use adabt_engine::caches::Rows;
use adabt_engine::column::ColumnStore;
use adabt_engine::database::Database;
use adabt_engine::expr::{CmpOp, Expr};
use adabt_engine::record::Record;
use adabt_engine::schema::Schema;
use adabt_engine::structures::Collection;
use adabt_engine::value::Value;
use adabt_engine::verify::{Divergence, VerifyReport};

fn eval(e: &Expr, r: &Record) -> bool {
    match e {
        Expr::Compare { op: CmpOp::Eq, lhs, rhs } => match (&**lhs, &**rhs) {
            (Expr::Field(f), Expr::Literal(v)) => r.get(f) == Some(v),
            _ => false,
        },
        _ => false,
    }
}

fn people() -> Rows {
    vec![
        (1, Record::new().with("name", Value::text("alice")).with("age", Value::I64(30))),
        (2, Record::new().with("name", Value::text("bob")).with("age", Value::I64(42))),
    ]
}

fn vals() -> Rows {
    vec![(10, Record::new().with("val", Value::I64(1)))]
}

fn heap() -> Vec<Collection> {
    vec![
        Collection { name: "c".into(), schema: Schema::dynamic(), rows: people() },
        Collection { name: "d".into(), schema: Schema::dynamic(), rows: vals() },
    ]
}

fn make_db() -> Database {
    let mut db = Database::new();
    db.create_collection("c", Schema::dynamic(), false);
    for (id, rec) in &people() {
        db.prepare_insert("c", &vec![], rec, rec).map_err(|b| format!("{b:?}")).unwrap();
        db.insert("c", *id, rec, &eval);
    }
    assert_eq!(db.create_index("c", true, "name", IndexKind::Hash, &people(), &eval), Ok(true));
    // Second collection for the columnar check.
    db.create_collection("d", Schema::dynamic(), false);
    for (id, rec) in &vals() {
        db.insert("d", *id, rec, &eval);
    }
    db
}

fn lines(r: &VerifyReport) -> Vec<String> {
    r.problems
        .iter()
        .map(|d| match d {
            Divergence::Dangling { index, key, .. } | Divergence::Unlisted { index, key, .. } => {
                d.line(&format!("{index:?}"), &format!("{key:?}"))
            }
            Divergence::Undecodable { index, .. } => d.line(&format!("{index:?}"), ""),
            _ => d.line("", ""),
        })
        .collect()
}

#[test]
fn a_clean_database_reports_no_divergences() {
    let db = make_db();
    let r = db.verify(&heap(), &eval);
    assert!(
        r.problems.is_empty(),
        "clean database should have no verify problems; got: {:?}",
        r.problems
    );
    assert!(r.indexes_checked > 0);
    assert!(r.records_checked > 0);
    assert_eq!(r.records_checked, 3);
    assert_eq!(r.indexes_checked, 1);
}

#[test]
fn a_dropped_index_entry_is_detected_forward() {
    let mut db = make_db();
    let at = db.derived.indexes.position("c").expect("an index of c");
    let idx = &mut db.derived.indexes.pairs[at].1[0];
    let (key, ids) = idx.snapshot().into_iter().next().expect("an entry");
    idx.remove(&key, ids[0]);
    let r = db.verify(&heap(), &eval);
    let told = lines(&r);
    let msg = told.iter().find(|m| m.contains("does not list it"));
    assert!(
        msg.is_some(),
        "expected a forward divergence message; got problems: {told:?}"
    );
}

#[test]
fn a_dangling_index_id_is_detected_reverse() {
    let mut db = make_db();
    let at = db.derived.indexes.position("c").expect("an index of c");
    db.derived.indexes.pairs[at].1[0].insert(&Value::text("ghost"), 99_999);
    let r = db.verify(&heap(), &eval);
    let told = lines(&r);
    let msg = told.iter().find(|m| m.contains("holds id"));
    assert!(
        msg.is_some(),
        "expected a reverse divergence message; got problems: {told:?}"
    );
    assert_eq!(
        told,
        vec![
            "c: index \"name\" (hash) holds id 99999 under key Str(\"ghost\") but the heap has no such record"
        ]
    );
}

#[test]
fn verify_reports_column_store_divergence() {
    // With no derived structures there is nothing to disagree.
    let mut db = Database::new();
    let rows: Rows = vec![
        (1, Record::new().with("val", Value::I64(1))),
        (2, Record::new().with("val", Value::I64(2))),
    ];
    for (id, rec) in &rows {
        db.insert("c", *id, rec, &eval);
    }
    let all = vec![Collection { name: "c".into(), schema: Schema::dynamic(), rows }];
    assert!(db.verify(&all, &eval).problems.is_empty());

    // And a copy of other rows than there are is told of both ways.
    let other: Rows = vec![
        (2, Record::new().with("val", Value::I64(2))),
        (7, Record::new().with("val", Value::I64(7))),
    ];
    db.derived.columns.put("c", ColumnStore::build(&other));
    let told = lines(&db.verify(&all, &eval));
    assert_eq!(
        told,
        vec![
            "c: column store holds 1 ids the heap does not have",
            "c: column store is missing 1 ids the heap has"
        ]
    );
}

#[test]
fn a_partial_index_is_held_to_its_condition() {
    let mut db = Database::new();
    let cond = || Expr::compare("age", CmpOp::Eq, Value::I64(30));
    for (id, rec) in &people() {
        db.insert("c", *id, rec, &eval);
    }
    let made =
        db.create_partial_index("c", true, "name", cond(), IndexKind::Hash, &people(), &eval);
    assert_eq!(made, Ok(true));
    let all = vec![Collection { name: "c".into(), schema: Schema::dynamic(), rows: people() }];
    assert!(db.verify(&all, &eval).problems.is_empty());
    let at = db.derived.indexes.position("c").unwrap();
    assert_eq!(db.derived.indexes.pairs[at].1[0].len(), 1);
}
