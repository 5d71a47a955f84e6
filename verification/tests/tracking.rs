//! Plugin state tracking.

use shikake::load_time::LoadTime;
use shikake::state::{timed, PluginStatus, State, StatusCounts};

#[test]
fn register_and_get() {
    let mut state = State::default();
    state.register("foo");
    let entry = state.get("foo").unwrap();
    assert_eq!(entry.status, PluginStatus::Pending);
}

#[test]
fn mark_loaded() {
    let mut state = State::default();
    state.register("foo");
    state.mark_loaded("foo", LoadTime::from_millis(42));
    let entry = state.get("foo").unwrap();
    assert_eq!(
        entry.status,
        PluginStatus::Loaded {
            load_time: LoadTime::from_millis(42)
        }
    );
}

#[test]
fn mark_errored() {
    let mut state = State::default();
    state.register("foo");
    state.mark_errored("foo", "dlopen failed");
    let entry = state.get("foo").unwrap();
    assert_eq!(
        entry.status,
        PluginStatus::Errored {
            message: "dlopen failed".into()
        }
    );
}

#[test]
fn reset_to_pending() {
    let mut state = State::default();
    state.register("foo");
    state.mark_loaded("foo", LoadTime::from_millis(10));
    state.reset("foo");
    assert_eq!(state.get("foo").unwrap().status, PluginStatus::Pending);
}

#[test]
fn remove_plugin() {
    let mut state = State::default();
    state.register("foo");
    state.remove("foo");
    assert!(state.get("foo").is_none());
}

#[test]
fn counts() {
    let mut state = State::default();
    state.register("a");
    state.register("b");
    state.register("c");
    state.mark_loaded("a", LoadTime::from_millis(10));
    state.mark_errored("c", "fail");

    let counts = state.counts();
    assert_eq!(counts.loaded, 1);
    assert_eq!(counts.pending, 1);
    assert_eq!(counts.errored, 1);
}

#[test]
fn all_sorted() {
    let mut state = State::default();
    state.register("charlie");
    state.register("alpha");
    state.register("bravo");

    let sorted = state.all_sorted();
    let names: Vec<&str> = sorted.iter().map(|e| e.name.as_str()).collect();
    assert_eq!(names, vec!["alpha", "bravo", "charlie"]);
}

#[test]
fn total_load_time() {
    let mut state = State::default();
    state.register("a");
    state.register("b");
    state.register("c");
    state.mark_loaded("a", LoadTime::from_millis(10));
    state.mark_loaded("b", LoadTime::from_millis(20));
    // c stays pending — should not contribute.

    assert_eq!(state.total_load_time(), LoadTime::from_millis(30));
}

#[test]
fn len_and_is_empty() {
    let mut state = State::default();
    assert!(state.is_empty());
    assert_eq!(state.len(), 0);

    state.register("a");
    assert!(!state.is_empty());
    assert_eq!(state.len(), 1);
}

#[test]
fn display_status() {
    assert_eq!(PluginStatus::Pending.to_string(), "pending");
    let loaded = PluginStatus::Loaded {
        load_time: LoadTime::from_millis(42),
    };
    assert!(loaded.to_string().contains("loaded"));
    let errored = PluginStatus::Errored {
        message: "oops".into(),
    };
    assert!(errored.to_string().contains("oops"));
}

#[test]
fn timed_measures_duration() {
    let (result, duration) = timed(|| 42);
    assert_eq!(result, 42);
    // Duration should be non-negative (it always is, but sanity check).
    assert!(duration.as_nanos() < 1_000_000_000);
}

#[test]
fn mark_nonexistent_is_noop() {
    let mut state = State::default();
    // Should not panic.
    state.mark_loaded("nonexistent", LoadTime::from_millis(1));
    state.mark_errored("nonexistent", "fail");
    state.reset("nonexistent");
    state.remove("nonexistent");
    assert!(state.is_empty());
}

#[test]
fn registering_again_starts_over() {
    let mut state = State::default();
    state.register("foo");
    state.register("bar");
    state.mark_errored("foo", "fail");
    state.register("foo");
    assert_eq!(state.len(), 2);
    assert_eq!(state.get("foo").unwrap().status, PluginStatus::Pending);
}

#[test]
fn marks_leave_other_plugins_alone() {
    let mut state = State::default();
    for name in ["d", "b", "a", "c"] {
        state.register(name);
    }
    state.mark_errored("b", "first");
    state.mark_loaded("b", LoadTime::from_millis(3));
    state.remove("c");
    let seen: Vec<(String, String)> = state
        .all_sorted()
        .iter()
        .map(|e| (e.name.clone(), e.status.to_string()))
        .collect();
    let expected: Vec<(String, String)> = vec![
        ("a".into(), "pending".into()),
        ("b".into(), "loaded (3.00ms)".into()),
        ("d".into(), "pending".into()),
    ];
    assert_eq!(seen, expected);
    assert_eq!(
        state.counts(),
        StatusCounts {
            loaded: 1,
            pending: 2,
            errored: 0
        }
    );
}

#[test]
fn status_in_words() {
    let errored = PluginStatus::Errored {
        message: "oops".into(),
    };
    assert_eq!(errored.to_string(), "error: oops");
    let loaded = PluginStatus::Loaded {
        load_time: LoadTime::from_millis(42),
    };
    assert_eq!(loaded.to_string(), "loaded (42.00ms)");
}

#[test]
fn load_times_print_with_two_digits() {
    assert_eq!(LoadTime::from_millis(0).to_string(), "0.00ns");
    assert_eq!(LoadTime::new(0, 1_500).to_string(), "1.50µs");
    assert_eq!(LoadTime::new(2, 250_000_000).to_string(), "2.25s");
    assert_eq!(LoadTime::from_millis(61_006).to_string(), "61.01s");
}

#[test]
fn load_times_add_up() {
    let a = LoadTime::new(1, 999_999_999);
    let b = LoadTime::new(0, 2);
    assert_eq!(a.checked_plus(b), Some(LoadTime::new(2, 1)));
    assert_eq!(a.as_nanos(), 1_999_999_999);
    assert_eq!(LoadTime::from_millis(1_234), LoadTime::new(1, 234_000_000));
    let most = LoadTime::new(u64::MAX, 999_999_999);
    assert_eq!(most.checked_plus(LoadTime::new(0, 1)), None);
    assert_eq!(most.checked_plus(LoadTime::new(1, 0)), None);
    assert_eq!(
        most.checked_plus(LoadTime::new(0, 0)).unwrap().as_nanos(),
        18_446_744_073_709_551_615_999_999_999
    );
}

#[test]
fn total_out_of_reach() {
    let mut state = State::default();
    state.register("a");
    state.register("b");
    state.mark_loaded("a", LoadTime::new(u64::MAX, 0));
    assert_eq!(
        state.checked_total_load_time(),
        Some(LoadTime::new(u64::MAX, 0))
    );
    state.mark_loaded("b", LoadTime::new(1, 0));
    assert_eq!(state.checked_total_load_time(), None);
}

#[test]
fn timed_takes_time() {
    let (result, time) = timed(|| {
        let start = std::time::Instant::now();
        while start.elapsed() < std::time::Duration::from_millis(5) {}
        "done"
    });
    assert_eq!(result, "done");
    assert!(time.as_nanos() >= 5_000_000);
}
