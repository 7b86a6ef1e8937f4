use adabt_engine::caches::Rows;
use adabt_engine::error::Error;
use adabt_engine::expr::{CmpOp, Expr};
use adabt_engine::journal::{load_journal, write_journal, CrossShardWrite, Recovery};
use adabt_engine::plan::{Agg, LogicalOp};
use adabt_engine::record::Record;
use adabt_engine::sharded::{
    is_only_pushdown, merge_by_id, pushdown, shard_of, Route, ShardedDatabase,
};
use adabt_engine::value::Value;

#[test]
fn every_record_has_exactly_one_owner() {
    for shards in 1..=8usize {
        let mut seen = vec![0usize; shards];
        for i in 0..1000u64 {
            seen[shard_of(i, shards)] += 1;
        }
        assert_eq!(seen.iter().sum::<usize>(), 1000);
        // And the split is even, which is what makes the parallelism worth
        // having: one shard holding everything is a lock with extra steps.
        let (lo, hi) = (*seen.iter().min().unwrap(), *seen.iter().max().unwrap());
        assert!(hi - lo <= 1, "{shards} shards split {seen:?}");
    }
}

fn rows(ids: &[u64]) -> Rows {
    ids.iter().map(|i| (*i, Record::new().with("i", Value::U64(*i)))).collect()
}

#[test]
fn merging_reproduces_an_unpartitioned_scan() {
    let merged = merge_by_id(vec![rows(&[0, 3, 6, 9]), rows(&[1, 4, 7]), rows(&[2, 5, 8])]);
    let ids: Vec<u64> = merged.iter().map(|(id, _)| *id).collect();
    assert_eq!(ids, (0..10).collect::<Vec<_>>());
}

#[test]
fn merging_handles_empty_and_uneven_shards() {
    assert!(merge_by_id(vec![]).is_empty());
    assert!(merge_by_id(vec![Vec::new(), Vec::new()]).is_empty());
    let merged = merge_by_id(vec![Vec::new(), rows(&[5]), Vec::new(), rows(&[1, 2, 3])]);
    let ids: Vec<u64> = merged.iter().map(|(id, _)| *id).collect();
    assert_eq!(ids, vec![1, 2, 3, 5]);
}

fn is_x() -> Expr {
    Expr::compare("g", CmpOp::Eq, Value::text("x"))
}

#[test]
fn a_limit_is_never_pushed_to_a_shard() {
    // Each shard would apply it to its own rows and the merged result would
    // be missing whatever the others held.
    let plan = LogicalOp::scan("c").limit(3);
    assert!(matches!(pushdown(&plan), LogicalOp::Scan { .. }));
    assert!(!is_only_pushdown(&plan));
}

#[test]
fn an_aggregate_is_never_computed_per_shard() {
    // Combining partial sums adds floating-point numbers in an order that
    // depends on the shard count, which would make the answer depend on the
    // partitioning.
    let plan = LogicalOp::scan("c").aggregate(vec!["g".into()], vec![Agg::count("n")]);
    assert!(matches!(pushdown(&plan), LogicalOp::Scan { .. }));
    assert!(!is_only_pushdown(&plan));
}

#[test]
fn filters_are_pushed_and_need_no_central_pass() {
    let plan = LogicalOp::scan("c").filter(is_x());
    assert!(matches!(pushdown(&plan), LogicalOp::Filter { .. }));
    assert!(is_only_pushdown(&plan));
}

#[test]
fn a_filter_under_an_aggregate_is_still_pushed() {
    let plan = LogicalOp::scan("c").filter(is_x()).aggregate(vec![], vec![Agg::count("n")]);
    assert!(
        matches!(pushdown(&plan), LogicalOp::Filter { .. }),
        "the filter stayed central and every shard returned every row"
    );
}

#[test]
fn a_filter_above_a_limit_is_not_pushed_below_it() {
    let plan = LogicalOp::scan("c").limit(3).filter(is_x());
    assert!(matches!(pushdown(&plan), LogicalOp::Scan { .. }));
    assert!(!is_only_pushdown(&plan));
}

#[test]
fn a_database_needs_a_shard() {
    assert_eq!(
        ShardedDatabase::open(0, None).err(),
        Some(Error::InvalidOptimization(
            "a sharded database needs at least one shard".into()
        ))
    );
    let (db, _) = ShardedDatabase::open(4, None).unwrap();
    assert_eq!(db.shard_count(), 4);
    assert_eq!(db.owner(11), 3);
}

#[test]
fn a_read_by_identity_goes_to_its_owner() {
    let (db, _) = ShardedDatabase::open(4, None).unwrap();
    assert_eq!(db.query(&LogicalOp::get("c", 6)), Ok(Route::One(2)));
    match db.query(&LogicalOp::scan("c").limit(3)).unwrap() {
        Route::All { pushed, central } => {
            assert!(matches!(pushed, LogicalOp::Scan { .. }));
            assert!(central);
        }
        other => panic!("{other:?}"),
    }
}

#[test]
fn an_allocated_id_routes_home() {
    let (mut db, _) = ShardedDatabase::open(3, None).unwrap();
    let turns: Vec<usize> = (0..5).map(|_| db.take_turn()).collect();
    assert_eq!(turns, vec![0, 1, 2, 0, 1]);
    for i in 0..3usize {
        let id = db.insert_auto(i, 10);
        assert!(id >= 10);
        assert_eq!(db.owner(id), i);
    }
}

#[test]
fn a_batch_is_split_by_owner_and_told_of_as_one() {
    let (db, _) = ShardedDatabase::open(2, None).unwrap();
    let parts = db.partition(rows(&[0, 1, 2, 5]));
    let ids: Vec<Vec<u64>> =
        parts.iter().map(|p| p.iter().map(|(id, _)| *id).collect()).collect();
    assert_eq!(ids, vec![vec![0, 2], vec![1, 5]]);
    assert_eq!(ShardedDatabase::insert_batch(&vec![Ok(2), Ok(2)]), Ok(4));
    let failed = ShardedDatabase::insert_batch(&vec![Ok(2), Err("disk full".to_string())]);
    match failed {
        Err(Error::Corruption(m)) | Err(Error::Unsupported(m)) | Err(Error::InvalidOptimization(m)) => {
            assert!(m.contains("after committing 2 record(s)"), "{m}");
            assert!(m.contains("disk full"), "{m}");
        }
        other => panic!("{other:?}"),
    }
}

#[test]
fn what_the_shards_say_is_told_apart() {
    let said = vec!["a".to_string(), "b".to_string()];
    assert_eq!(
        ShardedDatabase::explain_optimizations(&said),
        "--- shard 0 ---\na--- shard 1 ---\nb"
    );
    assert_eq!(ShardedDatabase::metrics_text(&said), "# shard 0\na# shard 1\nb");
    let scan = LogicalOp::scan("t");
    let shards = "--- shard 0 ---\na\n--- shard 1 ---\nb\n";
    assert_eq!(ShardedDatabase::explain(&scan, &said, "plan"), shards);
    let limited = LogicalOp::Limit { input: Box::new(scan), count: 3 };
    assert_eq!(
        ShardedDatabase::explain(&limited, &said, "plan"),
        format!("{shards}--- merged, then centrally ---\nplan")
    );
}

#[test]
fn an_unreadable_journal_never_blocks_opening() {
    let (db, found) = ShardedDatabase::open(2, Some(b"junk")).unwrap();
    assert_eq!(db.shard_count(), 2);
    assert!(matches!(found, Recovery::Leave), "nothing is replayed from it");
    assert!(load_journal(Some(b"junk")).is_err());
    for empty in [None, Some(&b""[..]), Some(&b"XSH1"[..])] {
        let (_, found) = ShardedDatabase::open(2, empty).unwrap();
        assert!(matches!(found, Recovery::Replay(ws) if ws.is_empty()));
    }
    let write = CrossShardWrite { collection: "t".into(), id: 3, record: Some(Record::new()) };
    let bytes = write_journal(&vec![write]);
    let (_, found) = ShardedDatabase::open(2, Some(&bytes)).unwrap();
    assert!(matches!(found, Recovery::Replay(ws) if ws.len() == 1 && ws[0].id == 3));
}
