use adabt_engine::action::{Action, Decision, DecisionAction, IndexKind, Phase};
use adabt_engine::experiment::{scopes_overlap, Candidates, LiveExperiment};
use adabt_engine::shadow::Trial;

fn live() -> LiveExperiment {
    LiveExperiment::new(
        1,
        Decision {
            optimization: "auto_index".into(),
            scope: "users.country".into(),
            action: DecisionAction::Enable,
            trigger: "test".into(),
        },
        "users".into(),
    )
}

fn percentile(samples: &[u64], p: usize) -> u64 {
    let mut s = samples.to_vec();
    s.sort_unstable();
    if s.is_empty() {
        0
    } else {
        s[(s.len() - 1) * p / 100]
    }
}

#[test]
fn one_percent_routing_sends_exactly_one_query_in_a_hundred() {
    let mut e = live();
    let taken = (0..1000).filter(|_| e.route(1)).count();
    assert_eq!(taken, 10);
}

#[test]
fn routing_is_spread_rather_than_clumped() {
    // A random draw would sometimes put ten candidate queries in a row,
    // which measures a warmed cache rather than the change.
    let mut e = live();
    let picks: Vec<usize> = (0..1000).filter(|_| e.route(10)).collect();
    assert_eq!(picks.len(), 100);
    let gaps: Vec<usize> = picks.windows(2).map(|w| w[1] - w[0]).collect();
    assert!(
        gaps.iter().all(|g| *g == 10),
        "uneven spacing: {:?}",
        &gaps[..5.min(gaps.len())]
    );
}

#[test]
fn routing_is_identical_on_a_rerun() {
    let a: Vec<bool> = {
        let mut e = live();
        (0..300).map(|_| e.route(50)).collect()
    };
    let b: Vec<bool> = {
        let mut e = live();
        (0..300).map(|_| e.route(50)).collect()
    };
    assert_eq!(a, b, "the same experiment routed differently twice");
}

#[test]
fn a_hundred_percent_routes_everything_and_zero_routes_nothing() {
    let mut e = live();
    assert!((0..50).all(|_| e.route(100)));
    let mut e = live();
    assert!(!(0..50).any(|_| e.route(0)));
}

#[test]
fn a_mask_matches_only_the_exact_structure_it_recorded() {
    let mut c = Candidates::default();
    c.record(
        1,
        &Action::CreateIndex {
            collection: "users".into(),
            field: "country".into(),
            kind: IndexKind::Hash,
        },
        "users",
    );
    assert!(c.hides_index(None, "users", "country", IndexKind::Hash));
    assert!(
        !c.hides_index(None, "users", "country", IndexKind::BTree),
        "a hash candidate masked a pre-existing btree on the same field"
    );
    assert!(!c.hides_index(None, "orders", "country", IndexKind::Hash));
}

#[test]
fn a_candidate_on_one_collection_does_not_mask_another_collections_structures() {
    // Switching a column store or direct lookup on is engine-wide, so a mask
    // that was one flag would hide every collection's structures.
    let mut c = Candidates::default();
    c.record(1, &Action::SetColumnStore(true), "users");
    c.record(1, &Action::SetDirectLookup(true), "users");

    assert!(c.hides_column_store(None, "users"));
    assert!(c.hides_direct(None, "users"));
    assert!(
        !c.hides_column_store(None, "orders"),
        "an experiment on users masked orders' column store"
    );
    assert!(
        !c.hides_direct(None, "orders"),
        "an experiment on users masked orders' direct array"
    );
}

#[test]
fn retiring_one_experiment_leaves_anothers_mask_intact() {
    // Finishing experiment 1 must not unmask experiment 2's unproven
    // structure into live traffic.
    let mut c = Candidates::default();
    c.record(1, &Action::SetColumnStore(true), "users");
    c.record(
        2,
        &Action::CreateIndex {
            collection: "orders".into(),
            field: "total".into(),
            kind: IndexKind::Hash,
        },
        "orders",
    );
    assert!(c.hides_column_store(None, "users"));
    assert!(c.hides_index(None, "orders", "total", IndexKind::Hash));

    c.forget(1);
    assert!(
        !c.hides_column_store(None, "users"),
        "experiment 1 was not unmasked"
    );
    assert!(
        c.hides_index(None, "orders", "total", IndexKind::Hash),
        "retiring experiment 1 exposed experiment 2's unproven index"
    );
    assert!(c.is_empty_for(1));
    assert!(!c.is_empty_for(2));
    assert!(!c.is_empty(), "the mask as a whole is not empty");
}

#[test]
fn a_global_scoped_candidate_masks_nothing_by_collection() {
    // An experiment with no collection of its own has nothing to scope
    // the mask to, so it records nothing rather than masking everything.
    let mut c = Candidates::default();
    c.record(1, &Action::SetColumnStore(true), "");
    assert!(c.is_empty());
}

#[test]
fn a_change_that_rewrites_the_primary_masks_nothing() {
    // Only derived builds are maskable: elsewhere there is no second copy to
    // hide it from.
    let mut c = Candidates::default();
    c.record(1, &Action::SetRecordCompression(true), "users");
    c.record(1, &Action::SetBufferPoolPages(4096), "users");
    c.record(1, &Action::FreezeSchema { collection: "users".into() }, "users");
    assert!(c.is_empty());
}

#[test]
fn folding_reports_the_candidates_own_memory_not_the_databases() {
    let mut e = live();
    e.set_ram_before(10_000_000);
    e.fold(12_500_000, 0, 0, 0, 0);
    assert_eq!(e.candidate.ram_bytes, 2_500_000);
}

#[test]
fn folding_carries_shadow_divergences_into_the_verdict() {
    let mut e = live();
    for _ in 0..3 {
        e.shadow.record(
            Trial { baseline_nanos: 1, candidate_nanos: 1, rows: 1, diverged: true },
            || "differs".to_string(),
        );
    }
    e.fold(0, 0, 0, 0, 0);
    assert_eq!(e.divergences, 3);
    assert!(!e.shadow.is_correct());
}

#[test]
fn the_two_latency_populations_stay_separate() {
    let mut e = live();
    let mut baseline = Vec::new();
    let mut candidate = Vec::new();
    for _ in 0..100 {
        e.record_baseline(true);
        baseline.push(1_000);
        e.record_candidate(true);
        candidate.push(100);
    }
    e.fold(
        0,
        percentile(&baseline, 50),
        percentile(&baseline, 99),
        percentile(&candidate, 50),
        percentile(&candidate, 99),
    );
    assert_eq!(e.baseline.samples, 100);
    assert_eq!(e.candidate.samples, 100);
    assert!(e.candidate.p50_nanos < e.baseline.p50_nanos / 2);
}

#[test]
fn errors_are_attributed_to_the_path_that_produced_them() {
    let mut e = live();
    e.record_baseline(false);
    e.record_candidate(true);
    e.fold(0, 1_000, 1_000, 1_000, 1_000);
    assert_eq!(e.baseline.errors, 1);
    assert_eq!(
        e.candidate.errors, 0,
        "a baseline error was blamed on the candidate"
    );
}

#[test]
fn the_same_collection_overlaps_with_itself() {
    assert!(scopes_overlap("users", "users"));
}

#[test]
fn different_collections_do_not_overlap() {
    assert!(!scopes_overlap("users", "orders"));
}

/// A global experiment takes every query as evidence, so it overlaps with
/// everything — in both directions, which is the part an asymmetric
/// implementation would get wrong.
#[test]
fn a_global_scope_overlaps_with_everything() {
    assert!(scopes_overlap("", "users"));
    assert!(scopes_overlap("users", ""));
    assert!(scopes_overlap("", ""));
}

#[test]
fn a_revealed_candidate_is_seen_by_its_own_queries_alone() {
    let mut c = Candidates::default();
    c.record(
        7,
        &Action::CreateIndex {
            collection: "users".into(),
            field: "country".into(),
            kind: IndexKind::Hash,
        },
        "users",
    );
    assert!(!c.hides_index(Some(7), "users", "country", IndexKind::Hash));
    assert!(c.hides_index(Some(8), "users", "country", IndexKind::Hash));
    assert_eq!(c.describe(), "hash index on users.country");
    assert_eq!(Candidates::default().describe(), "nothing");
    assert!(c.only(8).is_empty());
    assert_eq!(c.only(7).describe(), "hash index on users.country");
}

#[test]
fn an_experiment_explains_itself() {
    let mut e = live();
    e.record_baseline(true);
    assert_eq!(e.phase(), Phase::Proposed);
    assert_eq!(
        e.explain("experiment #1\n"),
        "experiment #1\n  candidate: nothing\n  shadow: no trials run\n  served: 1 baseline, 0 candidate\n"
    );
}
