use adabt_engine::action::{Action, IndexKind};
use adabt_engine::optimizations::{
    index_kind_for, index_kind_param, not_yet_implemented, register_builtins, split_scope,
    Applicability, AutoIndexOpt, Builtin, DirectLookupOpt, Equality, FixedCollection,
    FreezeSchemaOpt, OptContext, Ratio, RecordCompressionOpt, ResultCacheOpt, Reversibility,
};

fn fx() -> OptContext {
    OptContext {
        collections: vec![("users".into(), 10_000)],
        filtered_fields: vec![],
        fixed_size_collections: vec![],
        existing_indexes: vec![],
        equality: vec![],
        writes: 0,
        operations: 0,
        current_bytes: 0,
    }
}

fn dense() -> FixedCollection {
    FixedCollection { name: "users".into(), rows: 10_000, span: 10_000 }
}

fn as_f64(r: Ratio) -> f64 {
    r.num as f64 / r.den as f64
}

#[test]
fn every_builtin_registers_and_orders() {
    let r = register_builtins();
    assert_eq!(r.len(), 10);
    for b in &r {
        let m = b.meta();
        assert!(!m.summary.is_empty(), "{} has no summary", m.name);
    }
    for (i, a) in r.iter().enumerate() {
        for b in &r[i + 1..] {
            assert_ne!(a.meta().name, b.meta().name);
        }
    }
}

#[test]
fn auto_index_waits_until_there_is_evidence() {
    let mut fx = fx();
    assert!(matches!(AutoIndexOpt.applicability(&fx), Applicability::NotYet(_)));

    // Filtered, but not often enough.
    fx.filtered_fields = vec![("users".into(), "country".into(), 3)];
    let a = AutoIndexOpt.applicability(&fx);
    assert!(a.reason().unwrap().contains("filtered only 3 times"), "{a:?}");

    // Now often enough.
    fx.filtered_fields = vec![("users".into(), "country".into(), 50)];
    assert!(AutoIndexOpt.applicability(&fx).is_applicable());
}

#[test]
fn auto_index_ignores_a_collection_too_small_to_benefit() {
    let mut fx = fx();
    fx.collections = vec![("users".into(), 10)];
    fx.filtered_fields = vec![("users".into(), "country".into(), 500)];
    let a = AutoIndexOpt.applicability(&fx);
    assert!(a.reason().unwrap().contains("below the 1000"), "{a:?}");
}

#[test]
fn auto_index_does_not_re_propose_an_existing_index() {
    let mut fx = fx();
    fx.filtered_fields = vec![("users".into(), "country".into(), 50)];
    fx.existing_indexes = vec![("users".into(), "country".into(), IndexKind::Hash)];
    let a = AutoIndexOpt.applicability(&fx);
    assert!(a.reason().unwrap().contains("already indexed"), "{a:?}");
}

#[test]
fn auto_index_plans_a_create_and_its_exact_inverse() {
    let mut fx = fx();
    fx.filtered_fields = vec![("users".into(), "country".into(), 50)];
    let p = AutoIndexOpt.plan_enable(&fx, "users.country", None);
    assert_eq!(p.apply.len(), 1);
    assert_eq!(p.revert.len(), 1);
    assert!(p.describe().contains("create hash index on users.country"));
    assert!(matches!(p.revert[0], Action::DropIndex { .. }));
}

#[test]
fn auto_index_honors_an_explicit_kind_param_over_the_telemetry_guess() {
    let mut fx = fx();
    // Overwhelmingly equality, which alone would auto-detect Hash.
    fx.filtered_fields = vec![("users".into(), "country".into(), 50)];
    let forced_btree = Some(1);
    let p = AutoIndexOpt.plan_enable(&fx, "users.country", forced_btree);
    assert!(
        p.describe().contains("create btree index on users.country"),
        "{}",
        p.describe()
    );
}

#[test]
fn an_unrecognized_kind_param_falls_back_to_the_telemetry_guess() {
    let mut fx = fx();
    fx.filtered_fields = vec![("users".into(), "country".into(), 50)];
    let garbage = Some(99);
    let p = AutoIndexOpt.plan_enable(&fx, "users.country", garbage);
    assert!(p.describe().contains("create hash index on users.country"));
}

#[test]
fn direct_lookup_is_structurally_ineligible_without_a_fixed_schema() {
    let a = DirectLookupOpt.applicability(&fx());
    // Ineligible, not NotYet: no workload change makes this possible.
    assert!(matches!(a, Applicability::Ineligible(_)), "{a:?}");
    assert!(a.reason().unwrap().contains("constant stride"));
}

#[test]
fn direct_lookup_becomes_applicable_with_a_fixed_schema() {
    let mut fx = fx();
    fx.fixed_size_collections = vec![dense()];
    assert!(DirectLookupOpt.applicability(&fx).is_applicable());
    let e = DirectLookupOpt.estimate(&fx);
    assert!(e.helps_latency());
    assert!(e.costs_resources(), "a second copy of the data is not free");
}

#[test]
fn direct_lookup_reports_its_cost_to_freedom() {
    // It only works while the schema stays fixed-width, which is a real
    // constraint on the user, not merely a memory cost.
    let effects = DirectLookupOpt.meta().axis_effects;
    assert!(effects.freedom < 0);
    assert!(effects.speed > 0);
    assert!(effects.resources < 0);
}

#[test]
fn a_write_heavy_workload_lowers_the_result_cache_estimate_without_vetoing_it() {
    let mut fx = fx();
    let read_heavy = ResultCacheOpt.estimate(&fx);

    fx.writes = 200;
    fx.operations = 200;
    let write_heavy = ResultCacheOpt.estimate(&fx);

    // Still possible — a bulk load must not permanently veto the cache —
    // but plainly worth less.
    assert!(ResultCacheOpt.applicability(&fx).is_applicable());
    assert!(
        as_f64(write_heavy.p50_delta) > as_f64(read_heavy.p50_delta),
        "a write-heavy workload should reduce the expected benefit"
    );
}

#[test]
fn every_optimization_plans_a_reversible_change() {
    let mut fx = fx();
    fx.fixed_size_collections = vec![dense()];
    fx.filtered_fields = vec![("users".into(), "country".into(), 50)];
    for opt in register_builtins() {
        let scopes = match opt {
            Builtin::AutoIndex => AutoIndexOpt.candidate_scopes(&fx),
            Builtin::FreezeSchema => FreezeSchemaOpt.candidate_scopes(&fx),
            _ => Vec::new(),
        };
        let scope = scopes.into_iter().next().unwrap_or_else(|| "global".to_string());
        let p = opt.plan_enable(&fx, &scope, None);
        if p.apply.is_empty() {
            continue;
        }
        if opt.meta().reversibility == Reversibility::Destructive {
            // Allowed to have no inverse — and for that reason never
            // applied automatically.
            continue;
        }
        assert!(
            !p.revert.is_empty(),
            "{} plans a change it cannot undo but is not declared Destructive",
            opt.meta().name
        );
    }
}

#[test]
fn unimplemented_optimizations_are_declared_rather_than_hidden() {
    for (name, _) in not_yet_implemented() {
        assert!(
            Builtin::named(name).is_none(),
            "{name} is listed as unimplemented but is registered"
        );
    }
}

/// Every other optimization spends resources to buy latency; a policy that
/// puts resources first would otherwise have nothing to select.
#[test]
fn at_least_one_optimization_reduces_resources() {
    let savers: Vec<&str> = register_builtins()
        .iter()
        .map(|o| o.meta())
        .filter(|m| m.axis_effects.resources > 0)
        .map(|m| m.name)
        .collect();
    assert!(
        !savers.is_empty(),
        "no optimization trades in the resource-saving direction; \
         a resources-priority policy would have nothing to choose"
    );
    assert!(savers.contains(&"record_compression"), "{savers:?}");
}

#[test]
fn a_resource_saver_reports_negative_storage_and_positive_cpu() {
    let mut fx = fx();
    fx.collections = vec![("users".into(), 100_000)];
    let e = RecordCompressionOpt.estimate(&fx);
    assert!(e.storage_bytes < 0, "compression should reduce storage");
    assert!(e.ram_bytes < 0, "fewer pages should reduce residency");
    assert!(as_f64(e.cpu_frac) > 0.0, "compression should cost CPU");
    assert!(
        !e.helps_latency(),
        "compression is not a latency optimization"
    );
}

#[test]
fn compression_waits_until_there_is_enough_data_to_be_worth_it() {
    let mut fx = fx();
    fx.collections = vec![("users".into(), 10)];
    let a = RecordCompressionOpt.applicability(&fx);
    assert!(a.reason().unwrap().contains("not worth it"), "{a:?}");

    fx.collections = vec![("users".into(), 100_000)];
    assert!(RecordCompressionOpt.applicability(&fx).is_applicable());
}

#[test]
fn its_confidence_is_low_because_compressibility_depends_on_the_data() {
    let mut fx = fx();
    fx.collections = vec![("users".into(), 100_000)];
    let e = RecordCompressionOpt.estimate(&fx);
    assert!(
        as_f64(e.confidence) < 0.5,
        "an estimate that cannot know the data should not be confident"
    );
}

#[test]
fn the_axes_now_point_in_both_directions() {
    let r = register_builtins();
    let speed_buyers = r.iter().filter(|o| o.meta().axis_effects.speed > 0).count();
    let resource_savers = r.iter().filter(|o| o.meta().axis_effects.resources > 0).count();
    assert!(speed_buyers > 0);
    assert!(resource_savers > 0);
}

#[test]
fn a_scope_names_its_parts() {
    assert_eq!(
        split_scope("users.address.city"),
        Some(("users".to_string(), "address.city".to_string()))
    );
    assert_eq!(split_scope("global"), None);
    assert_eq!(index_kind_param(Some(0)), Some(IndexKind::Hash));
    assert_eq!(index_kind_param(Some(2)), Some(IndexKind::Bitmap));
    assert_eq!(index_kind_param(None), None);
}

#[test]
fn a_field_filtered_by_range_wants_an_ordered_index() {
    let mut fx = fx();
    fx.equality = vec![Equality {
        collection: "users".into(),
        field: "age".into(),
        equal: 1,
        total: 10,
    }];
    assert_eq!(index_kind_for(&fx, "users", "age"), IndexKind::BTree);
    assert_eq!(index_kind_for(&fx, "users", "country"), IndexKind::Hash);
}

#[test]
fn a_sparse_range_of_ids_waits() {
    let mut fx = fx();
    fx.fixed_size_collections = vec![FixedCollection {
        name: "users".into(),
        rows: 10,
        span: 1_000,
    }];
    assert!(matches!(DirectLookupOpt.applicability(&fx), Applicability::NotYet(_)));
    assert!(Builtin::named("direct_lookup").is_some());
    assert!(Builtin::named("nothing_of_the_sort").is_none());
}
