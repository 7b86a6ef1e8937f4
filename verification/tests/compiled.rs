use adabt_engine::compiled::{CompiledPath, CompiledPaths, HOT_THRESHOLD};
use adabt_engine::expr::{CmpOp, Expr};
use adabt_engine::plan::LogicalOp;
use adabt_engine::value::Value;

#[test]
fn a_shape_is_specialised_only_once_it_is_hot() {
    let mut c = CompiledPaths::new();
    let s = 1;
    for _ in 0..HOT_THRESHOLD - 1 {
        assert!(!c.observe(s), "specialised too early");
    }
    assert!(c.observe(s), "never became hot");
}

#[test]
fn an_installed_path_stops_being_counted() {
    let mut c = CompiledPaths::new();
    let s = 1;
    c.install(s, CompiledPath::HeapById { collection: "u".into() });
    assert!(!c.observe(s), "an installed shape was counted again");
    assert!(c.get(s).is_some());
    assert_eq!(c.hits(), 1);
}

#[test]
fn only_identity_lookups_are_specialised() {
    // A filter or a scan still has real work to do; skipping the general
    // path would mean reimplementing it.
    let get = LogicalOp::get("users", 1);
    assert!(CompiledPaths::candidate(&get, false).is_some());

    let scan = LogicalOp::scan("users");
    assert!(CompiledPaths::candidate(&scan, false).is_none());

    let filtered = LogicalOp::scan("users").filter(Expr::compare("a", CmpOp::Eq, Value::I64(1)));
    assert!(CompiledPaths::candidate(&filtered, false).is_none());
}

#[test]
fn a_direct_array_selects_the_shorter_path() {
    let get = LogicalOp::get("users", 1);
    assert_eq!(
        CompiledPaths::candidate(&get, true),
        Some(CompiledPath::DirectById { collection: "users".into() })
    );
    assert_eq!(
        CompiledPaths::candidate(&get, false),
        Some(CompiledPath::HeapById { collection: "users".into() })
    );
}

#[test]
fn clearing_removes_paths_and_counts() {
    // A compiled path encodes what exists; if that changes, a path still
    // reaching for the old structure is wrong, not merely stale.
    let mut c = CompiledPaths::new();
    c.install(1, CompiledPath::DirectById { collection: "u".into() });
    c.observe(2);
    c.clear();
    assert!(c.is_empty());
    assert!(c.get(1).is_none());
    // And the partial count is gone too, so a shape does not jump straight
    // back to hot against a layout that no longer exists.
    assert!(!c.observe(2));
}

#[test]
fn paths_describe_the_work_they_do() {
    let d = CompiledPath::DirectById { collection: "users".into() };
    assert!(d.describe().contains("address"));
    let h = CompiledPath::HeapById { collection: "users".into() };
    assert!(h.describe().contains("page directory"));
}
