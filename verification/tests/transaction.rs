use adabt_engine::action::IndexKind;
use adabt_engine::caches::Rows;
use adabt_engine::database::Database;
use adabt_engine::constraints::Sharing;
use adabt_engine::error::Error;
use adabt_engine::expr::Expr;
use adabt_engine::record::Record;
use adabt_engine::schema::{FieldDef, FieldType, Schema, SchemaMode};
use adabt_engine::strmap::StrMap;
use adabt_engine::transaction::{LastWrite, Transaction, Unfit, Write};
use adabt_engine::value::Value;

fn rec(n: i64) -> Record {
    Record::new().with("n", Value::I64(n))
}

/// Two collections of any records.
fn schemas() -> StrMap<Schema> {
    let mut all = StrMap::new();
    all.put("c", Schema::dynamic());
    all.put("d", Schema::dynamic());
    all
}

/// Judge a transaction over collections that nothing else has written.
fn commit(
    db: &Database,
    t: &Transaction,
    stored: &Vec<Option<Record>>,
    keys: &Vec<Option<u64>>,
    rows: &Vec<Option<u64>>,
    strict: bool,
) -> Result<(), Unfit> {
    let scans = vec![None; t.scan_count()];
    db.commit(t, &schemas(), &StrMap::new(), stored, keys, rows, &scans, strict)
}

fn conflict(id: u64) -> Result<(), Unfit> {
    Err(Unfit::Failed(Error::TransactionConflict { collection: "c".into(), id }))
}

#[test]
fn a_transaction_reads_its_own_writes() {
    let mut db = Database::new();
    let mut t = db.begin(5);
    assert_eq!((t.id(), t.snapshot()), (1, 5));
    assert!(t.is_empty());
    assert_eq!(t.get("c", 1, Some(&rec(1))), Some(rec(1)));
    assert!(t.update("c", 1, rec(2), Some(&rec(1))));
    assert_eq!(t.get("c", 1, Some(&rec(1))), Some(rec(2)));
    assert!(t.delete("c", 1, Some(&rec(1))));
    assert_eq!(t.get("c", 1, Some(&rec(1))), None);
    assert_eq!(t.insert("c", 2, rec(9), Some(&rec(8))), Err(Error::RecordExists(2)));
    assert_eq!(t.insert("c", 3, rec(9), None), Ok(()));
    assert_eq!(t.write_count(), 2);
    assert!(matches!(t.own("c", 1), Some(Write::Delete)));
    assert_eq!(t.write_at(1).1, 3);
    assert_eq!(db.begin(6).id(), 2);
}

#[test]
fn a_scan_sees_the_snapshot_and_what_was_written_over_it() {
    let mut db = Database::new();
    let mut t = db.begin(5);
    let snapshot: Rows = vec![(1, rec(1)), (2, rec(2)), (4, rec(4))];
    t.update("c", 2, rec(20), Some(&rec(2)));
    t.delete("c", 4, Some(&rec(4)));
    t.insert("c", 3, rec(30), None).unwrap();
    let got = t.scan("c", &snapshot);
    assert_eq!(got, vec![(1, rec(1)), (2, rec(20)), (3, rec(30))]);
}

#[test]
fn the_first_committer_wins() {
    let mut db = Database::new();
    let mut t = db.begin(5);
    t.update("c", 1, rec(2), Some(&rec(1)));
    let reads = vec![None; t.read_count()];
    assert_eq!(commit(&db, &t, &vec![Some(rec(2))], &vec![Some(5)], &reads, false), Ok(()));
    assert_eq!(commit(&db, &t, &vec![Some(rec(2))], &vec![None], &reads, false), Ok(()));
    assert_eq!(commit(&db, &t, &vec![Some(rec(2))], &vec![Some(6)], &reads, false), conflict(1));
}

#[test]
fn a_strict_commit_rests_on_nothing_stale() {
    let mut db = Database::new();
    let mut t = db.begin(5);
    t.get("c", 7, None);
    t.update("c", 1, rec(2), None);
    assert_eq!(t.read_count(), 2);
    let mut reads = vec![None; 2];
    for i in 0..2 {
        if t.read_at(i) == ("c", 7) {
            reads[i] = Some(9);
        }
    }
    assert_eq!(commit(&db, &t, &vec![Some(rec(2))], &vec![None], &reads, false), Ok(()));
    assert_eq!(commit(&db, &t, &vec![Some(rec(2))], &vec![None], &reads, true), conflict(7));
}

#[test]
fn a_reader_always_commits() {
    let mut db = Database::new();
    let mut t = db.begin(5);
    t.get("c", 7, Some(&rec(1)));
    assert_eq!(commit(&db, &t, &vec![], &vec![], &vec![Some(99)], true), Ok(()));
}

fn keeps_nothing(_: &Expr, _: &Record) -> bool {
    false
}

/// A database whose records of `c` may not share `n`, holding one record.
fn guarded() -> Database {
    let mut db = Database::new();
    let rows: Rows = vec![(1, rec(10))];
    assert!(db.add_unique_constraint("c", true, "n", &rows, &keeps_nothing).is_ok());
    db
}

fn shared(n: i64) -> Result<(), Unfit> {
    Err(Unfit::Shared {
        collection: "c".into(),
        breach: adabt_engine::constraints::Breach {
            field: "n".into(),
            value: Value::I64(n),
            sharing: Sharing::Stored,
        },
    })
}

#[test]
fn a_commit_does_not_share_a_stored_value() {
    let mut db = guarded();
    let mut t = db.begin(5);
    t.update("c", 2, rec(10), None);
    let reads = vec![None; t.read_count()];
    assert_eq!(commit(&db, &t, &vec![Some(rec(10))], &vec![None], &reads, false), shared(10));
    // What a schema refuses is refused first, and a conflict before that.
    let judge = |schemas: &StrMap<Schema>, latest: Option<u64>| {
        let (held, stored) = (StrMap::new(), vec![Some(rec(10))]);
        db.commit(&t, schemas, &held, &stored, &vec![latest], &reads, &vec![], false)
    };
    let of_text = FieldDef { name: "n".into(), ty: FieldType::Str { max_len: None }, required: true };
    let mut other = StrMap::new();
    other.put("c", Schema::new(SchemaMode::Declared, vec![of_text]).unwrap());
    assert_eq!(
        judge(&other, None),
        Err(Unfit::Failed(Error::InvalidSchema("record 2 does not fit the schema of c".into())))
    );
    assert_eq!(judge(&other, Some(6)), conflict(2));
    assert_eq!(
        judge(&StrMap::new(), None),
        Err(Unfit::Failed(Error::NoSuchCollection("c".into())))
    );
    assert_eq!(
        commit(&db, &t, &vec![Some(rec(10))], &vec![Some(6)], &reads, false),
        conflict(2)
    );
    // It is what will be stored that counts.
    assert_eq!(commit(&db, &t, &vec![Some(rec(11))], &vec![None], &reads, false), Ok(()));
    // A record may keep its own value.
    let mut t = db.begin(5);
    t.update("c", 1, rec(10), Some(&rec(10)));
    let reads = vec![None; t.read_count()];
    assert_eq!(commit(&db, &t, &vec![Some(rec(10))], &vec![None], &reads, false), Ok(()));
}

#[test]
fn two_writes_of_one_transaction_do_not_share_a_value() {
    let mut db = guarded();
    let mut t = db.begin(5);
    t.update("c", 2, rec(20), None);
    t.update("c", 3, rec(20), None);
    let reads = vec![None; t.read_count()];
    let both = vec![Some(rec(20)), Some(rec(20))];
    assert_eq!(commit(&db, &t, &both, &vec![None, None], &reads, false), shared(20));
    // Anything else that is wrong is said first.
    assert_eq!(
        commit(&db, &t, &both, &vec![None, Some(9)], &reads, false),
        conflict(3)
    );
    // In another collection the value is free.
    let mut t = db.begin(5);
    t.update("c", 2, rec(20), None);
    t.update("d", 3, rec(20), None);
    let reads = vec![None; t.read_count()];
    assert_eq!(commit(&db, &t, &both, &vec![None, None], &reads, false), Ok(()));
    // A delete puts no value.
    let mut t = db.begin(5);
    t.delete("c", 1, Some(&rec(10)));
    t.update("c", 3, rec(20), None);
    let reads = vec![None; t.read_count()];
    let one = vec![None, Some(rec(20))];
    assert_eq!(commit(&db, &t, &one, &vec![None, None], &reads, false), Ok(()));
}

#[test]
fn losing_its_index_makes_no_shared_value_legal() {
    let mut db = guarded();
    let rows: Rows = vec![(1, rec(10))];
    let none: Rows = vec![];
    assert!(db.unguarded_fields("c").is_empty());
    assert!(db.prepare_insert("c", &none, &rec(10), &rec(10)).is_err());
    assert!(db.drop_index("c", "n", IndexKind::Hash));
    assert!(db.has_unique_constraint("c", "n"));
    assert_eq!(db.unguarded_fields("c"), vec!["n".to_string()]);
    assert!(db.unguarded_fields("d").is_empty());

    // The rows themselves are asked now.
    assert!(db.prepare_insert("c", &rows, &rec(10), &rec(10)).is_err());
    assert!(db.prepare_insert("c", &rows, &rec(11), &rec(11)).is_ok());
    assert!(db.prepare_update("c", &rows, 2, &rec(10)).is_some());
    assert!(db.prepare_update("c", &rows, 1, &rec(10)).is_none(), "a record may keep its value");
    assert!(db.prepare_batch("c", &rows, &vec![(5, rec(12)), (6, rec(10))]).is_some());
    let mut t = db.begin(5);
    t.update("c", 2, rec(10), None);
    let reads = vec![None; t.read_count()];
    let mut held = StrMap::new();
    held.put("c", vec![(1, rec(10))]);
    assert_eq!(
        db.commit(&t, &schemas(), &held, &vec![Some(rec(10))], &vec![None], &reads, &vec![], false),
        shared(10)
    );

    assert_eq!(db.create_index("c", true, "n", IndexKind::Hash, &rows, &keeps_nothing), Ok(true));
    assert!(db.unguarded_fields("c").is_empty());
    assert!(db.prepare_update("c", &none, 2, &rec(10)).is_some());
}

#[test]
fn a_strict_commit_rests_on_no_stale_scan() {
    let mut db = Database::new();
    let mut t = db.begin(5);
    assert_eq!(t.scan("c", &vec![]), vec![]);
    assert_eq!(t.scan("c", &vec![]), vec![]);
    assert_eq!((t.scan_count(), t.scan_at(0)), (1, "c"));
    t.insert("c", 6, rec(6), None).unwrap();
    let reads = vec![None; t.read_count()];
    let judge = |scans: Vec<Option<LastWrite>>, strict: bool| {
        let stored = vec![Some(rec(6))];
        db.commit(&t, &schemas(), &StrMap::new(), &stored, &vec![None], &reads, &scans, strict)
    };
    // A row came into the collection that the scan did not see.
    let since = Some(LastWrite { at: 6, id: 5 });
    assert_eq!(judge(vec![since], true), conflict(5));
    assert_eq!(judge(vec![since], false), Ok(()), "a snapshot is all that was asked for");
    assert_eq!(judge(vec![Some(LastWrite { at: 5, id: 5 })], true), Ok(()));
    assert_eq!(judge(vec![None], true), Ok(()));
}
