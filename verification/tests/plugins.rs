//! Plugin specifications and their load order.

use shikake::plugin::{LazyTrigger, PluginSpec};
use shikake::resolve::{resolve_load_order, ResolveError};

fn spec(name: &str) -> PluginSpec {
    PluginSpec::new(name, &format!("/plugins/{name}.so"))
}

#[test]
fn new_spec_is_eager_and_enabled() {
    let s = spec("foo");
    assert!(s.is_eager());
    assert!(!s.is_lazy());
    assert!(s.enabled);
}

#[test]
fn adding_trigger_makes_lazy() {
    let s = spec("foo").on(LazyTrigger::Command("Foo".into()));
    assert!(s.is_lazy());
    assert!(!s.is_eager());
}

#[test]
fn disabled_spec() {
    let s = spec("foo").disabled();
    assert!(!s.enabled);
}

#[test]
fn matches_event_no_pattern() {
    let s = spec("foo").on(LazyTrigger::Event("BufEnter".into(), None));
    assert!(s.matches_event("BufEnter", None));
    assert!(s.matches_event("BufEnter", Some("*.rs")));
    assert!(!s.matches_event("BufLeave", None));
}

#[test]
fn matches_event_with_pattern() {
    let s = spec("foo").on(LazyTrigger::Event("FileType".into(), Some("rust".into())));
    assert!(s.matches_event("FileType", Some("rust")));
    assert!(!s.matches_event("FileType", Some("lua")));
    assert!(!s.matches_event("FileType", None));
}

#[test]
fn matches_command() {
    let s = spec("foo").on(LazyTrigger::Command("FooRun".into()));
    assert!(s.matches_command("FooRun"));
    assert!(!s.matches_command("BarRun"));
}

#[test]
fn matches_filetype() {
    let s = spec("foo").on(LazyTrigger::Filetype("rust".into()));
    assert!(s.matches_filetype("rust"));
    assert!(!s.matches_filetype("python"));
}

#[test]
fn matches_keymap() {
    let s = spec("foo").on(LazyTrigger::Keymap("n".into(), "<leader>f".into()));
    assert!(s.matches_keymap("n", "<leader>f"));
    assert!(!s.matches_keymap("i", "<leader>f"));
    assert!(!s.matches_keymap("n", "<leader>g"));
}

#[test]
fn multiple_triggers() {
    let s = spec("foo")
        .on(LazyTrigger::Command("Foo".into()))
        .on(LazyTrigger::Filetype("rust".into()))
        .on(LazyTrigger::Keymap("n".into(), "<leader>f".into()));

    assert!(s.matches_command("Foo"));
    assert!(s.matches_filetype("rust"));
    assert!(s.matches_keymap("n", "<leader>f"));
    assert!(!s.matches_event("BufEnter", None));
}

#[test]
fn empty_specs() {
    let order = resolve_load_order(&[]).unwrap();
    assert!(order.is_empty());
}

#[test]
fn single_plugin() {
    let order = resolve_load_order(&[spec("alpha")]).unwrap();
    assert_eq!(order, vec!["alpha"]);
}

#[test]
fn independent_plugins_sorted_alphabetically() {
    let specs = vec![spec("charlie"), spec("alpha"), spec("bravo")];
    let order = resolve_load_order(&specs).unwrap();
    assert_eq!(order, vec!["alpha", "bravo", "charlie"]);
}

#[test]
fn linear_dependency_chain() {
    let specs = vec![spec("c").depends_on("b"), spec("b").depends_on("a"), spec("a")];
    let order = resolve_load_order(&specs).unwrap();
    assert_eq!(order, vec!["a", "b", "c"]);
}

#[test]
fn diamond_dependency() {
    // d depends on b and c, both depend on a.
    let specs = vec![
        spec("d").depends_on("b").depends_on("c"),
        spec("b").depends_on("a"),
        spec("c").depends_on("a"),
        spec("a"),
    ];
    let order = resolve_load_order(&specs).unwrap();

    // a must come first, d must come last, b and c in between (alphabetical).
    assert_eq!(order[0], "a");
    assert_eq!(order[3], "d");
    assert!(order[1..3].contains(&"b".to_string()));
    assert!(order[1..3].contains(&"c".to_string()));
}

#[test]
fn disabled_plugins_excluded() {
    let specs = vec![spec("b").depends_on("a"), spec("a"), spec("c").disabled()];
    let order = resolve_load_order(&specs).unwrap();
    assert_eq!(order, vec!["a", "b"]);
    assert!(!order.contains(&"c".to_string()));
}

#[test]
fn disabled_dependency_is_missing() {
    let specs = vec![spec("b").depends_on("a"), spec("a").disabled()];
    let err = resolve_load_order(&specs).unwrap_err();
    assert_eq!(
        err,
        ResolveError::MissingDependency {
            from: "b".into(),
            dep: "a".into(),
        }
    );
}

#[test]
fn missing_dependency_error() {
    let specs = vec![spec("a").depends_on("nonexistent")];
    let err = resolve_load_order(&specs).unwrap_err();
    assert_eq!(
        err,
        ResolveError::MissingDependency {
            from: "a".into(),
            dep: "nonexistent".into(),
        }
    );
}

#[test]
fn cycle_detected() {
    let specs = vec![spec("a").depends_on("b"), spec("b").depends_on("a")];
    let err = resolve_load_order(&specs).unwrap_err();
    match err {
        ResolveError::Cycle { cycle } => {
            assert!(cycle.contains("a"));
            assert!(cycle.contains("b"));
        }
        other => panic!("expected Cycle, got {other:?}"),
    }
}

#[test]
fn three_way_cycle() {
    let specs = vec![
        spec("a").depends_on("c"),
        spec("b").depends_on("a"),
        spec("c").depends_on("b"),
    ];
    let err = resolve_load_order(&specs).unwrap_err();
    match err {
        ResolveError::Cycle { cycle } => {
            assert!(cycle.contains("a"));
            assert!(cycle.contains("b"));
            assert!(cycle.contains("c"));
        }
        other => panic!("expected Cycle, got {other:?}"),
    }
}

#[test]
fn partial_cycle_still_detected() {
    // d is fine, but a->b->c->a is a cycle.
    let specs = vec![
        spec("d"),
        spec("a").depends_on("c"),
        spec("b").depends_on("a"),
        spec("c").depends_on("b"),
    ];
    let err = resolve_load_order(&specs).unwrap_err();
    match err {
        ResolveError::Cycle { cycle } => {
            assert!(cycle.contains("a"));
            assert!(!cycle.contains("d"));
        }
        other => panic!("expected Cycle, got {other:?}"),
    }
}

#[test]
fn complex_graph() {
    // e -> c, d
    // d -> b
    // c -> a, b
    // b -> a
    // a (root)
    let specs = vec![
        spec("e").depends_on("c").depends_on("d"),
        spec("d").depends_on("b"),
        spec("c").depends_on("a").depends_on("b"),
        spec("b").depends_on("a"),
        spec("a"),
    ];
    let order = resolve_load_order(&specs).unwrap();

    // Verify constraints.
    let pos = |name: &str| order.iter().position(|n| n == name).unwrap();
    assert!(pos("a") < pos("b"));
    assert!(pos("a") < pos("c"));
    assert!(pos("b") < pos("c"));
    assert!(pos("b") < pos("d"));
    assert!(pos("c") < pos("e"));
    assert!(pos("d") < pos("e"));
}

#[test]
fn duplicate_dependency_is_harmless() {
    let specs = vec![spec("b").depends_on("a").depends_on("a"), spec("a")];
    let order = resolve_load_order(&specs).unwrap();
    assert_eq!(order, vec!["a", "b"]);
}

#[test]
fn builder_chaining() {
    let s = PluginSpec::new("test", "/lib/test.so")
        .on(LazyTrigger::Command("TestCmd".into()))
        .on(LazyTrigger::Filetype("rust".into()))
        .depends_on("dep_a")
        .depends_on("dep_b");

    assert_eq!(s.name, "test");
    assert_eq!(s.lazy.len(), 2);
    assert_eq!(s.dependencies, vec!["dep_a", "dep_b"]);
    assert!(s.enabled);
    assert!(s.is_lazy());
}

#[test]
fn sooner_ready_loads_sooner_whatever_the_name() {
    // z gets ready with m, a only with n.
    let specs = vec![
        spec("a").depends_on("n"),
        spec("z").depends_on("m"),
        spec("n"),
        spec("m"),
    ];
    let order = resolve_load_order(&specs).unwrap();
    assert_eq!(order, vec!["m", "n", "z", "a"]);
}

#[test]
fn ready_together_loads_by_name() {
    let specs = vec![
        spec("y").depends_on("root"),
        spec("x").depends_on("root").depends_on("root"),
        spec("B").depends_on("root"),
        spec("root"),
        spec("é").depends_on("root"),
    ];
    let order = resolve_load_order(&specs).unwrap();
    assert_eq!(order, vec!["root", "B", "x", "y", "é"]);
}

#[test]
fn listing_order_does_not_matter() {
    let mut specs = vec![
        spec("e").depends_on("c").depends_on("d"),
        spec("d").depends_on("b"),
        spec("c").depends_on("a").depends_on("b"),
        spec("b").depends_on("a"),
        spec("a"),
    ];
    let order = resolve_load_order(&specs).unwrap();
    specs.reverse();
    assert_eq!(resolve_load_order(&specs).unwrap(), order);
    assert_eq!(order, vec!["a", "b", "c", "d", "e"]);
}

#[test]
fn last_enabled_namesake_counts() {
    let specs = vec![spec("b"), spec("a").depends_on("b"), spec("a"), spec("a").disabled()];
    let order = resolve_load_order(&specs).unwrap();
    assert_eq!(order, vec!["a", "b"]);
}

#[test]
fn cycle_names_all_it_holds_up() {
    let specs = vec![
        spec("free"),
        spec("ring2").depends_on("ring1"),
        spec("ring1").depends_on("ring2"),
        spec("behind").depends_on("ring1"),
        spec("self").depends_on("self"),
    ];
    let err = resolve_load_order(&specs).unwrap_err();
    assert_eq!(
        err,
        ResolveError::Cycle {
            cycle: "behind, ring1, ring2, self".into(),
        }
    );
    assert_eq!(
        err.to_string(),
        "dependency cycle detected involving: behind, ring1, ring2, self"
    );
}

#[test]
fn missing_is_reported_before_cycles() {
    let specs = vec![
        spec("a").depends_on("a"),
        spec("c").depends_on("a").depends_on("y").depends_on("x"),
        spec("d").depends_on("w"),
    ];
    let err = resolve_load_order(&specs).unwrap_err();
    assert_eq!(
        err,
        ResolveError::MissingDependency {
            from: "c".into(),
            dep: "y".into(),
        }
    );
    assert_eq!(err.to_string(), "plugin 'c' depends on unknown plugin 'y'");
}
