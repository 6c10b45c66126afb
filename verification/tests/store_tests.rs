use ctxlog::event::CommandLog;
use ctxlog::store::Store;

fn ev(id: &str, ts_ms: i64, cwd: &str, command: &str, exit_code: i32, dur_ms: u64) -> CommandLog {
    CommandLog {
        id: id.to_string(),
        timestamp_ms: ts_ms,
        cwd: cwd.to_string(),
        command: command.to_string(),
        exit_code,
        duration_ms: dur_ms,
    }
}

#[test]
fn scan_ascending_then_descending_round_trip() {
    let mut store = Store::new();
    store.insert(ev("b", 2_000, "/a", "make", 0, 10));
    store.insert(ev("a", 1_000, "/a", "git status", 0, 20));
    store.insert(ev("c", 3_000, "/b", "cargo test", 1, 30));
    let asc = store.scan(None, false);
    let desc = store.scan(None, true);
    assert_eq!(asc.len(), 3);
    assert_eq!(desc.len(), 3);
    let asc_ids: Vec<&str> = asc.iter().map(|e| e.id.as_str()).collect();
    let desc_ids: Vec<&str> = desc.iter().map(|e| e.id.as_str()).collect();
    assert_eq!(asc_ids, vec!["a", "b", "c"]);
    assert_eq!(desc_ids, vec!["c", "b", "a"]);
    assert_eq!(asc[0].command, "git status");
    assert_eq!(asc[0].duration_ms, 20);
    assert_eq!(asc[0].exit_code, 0);
    assert_eq!(asc[0].cwd, "/a");
    assert_eq!(desc[2].command, "git status");
}

#[test]
fn scan_keeps_insertion_order_for_equal_timestamps() {
    let mut store = Store::new();
    store.insert(ev("x", 1_000, "/a", "first", 0, 1));
    store.insert(ev("y", 1_000, "/a", "second", 0, 1));
    let asc = store.scan(None, false);
    assert_eq!(asc[0].id, "x");
    assert_eq!(asc[1].id, "y");
}

#[test]
fn scan_lower_bound_is_inclusive() {
    let mut store = Store::new();
    store.insert(ev("a", 999, "/a", "old", 0, 1));
    store.insert(ev("b", 1_000, "/a", "edge", 0, 1));
    store.insert(ev("c", 1_001, "/a", "new", 0, 1));
    let got = store.scan(Some(1_000), false);
    let ids: Vec<&str> = got.iter().map(|e| e.id.as_str()).collect();
    assert_eq!(ids, vec!["b", "c"]);
}

#[test]
fn purge_all_leaves_nothing_to_scan_and_zero_stats() {
    let mut store = Store::new();
    store.insert(ev("a", 1, "/a", "make", 0, 5));
    store.insert(ev("b", 2, "/b", "git log", 0, 6));
    store.purge_all();
    assert_eq!(store.count(), 0);
    assert!(store.scan(None, false).is_empty());
    assert!(store.scan(None, true).is_empty());
    assert!(store.scan(Some(0), false).is_empty());
    let stats = store.stats();
    assert_eq!(stats.count, 0);
    assert_eq!(stats.total_ms, 0);
    assert!(stats.min_ms.is_none());
    assert!(stats.max_ms.is_none());
}

#[test]
fn log_command_records_fields_and_36_char_id() {
    let mut store = Store::new();
    let e = store.log_command("git push".to_string(), "/home/p".to_string(), 0, 1_234);
    assert_eq!(store.count(), 1);
    assert_eq!(e.id.len(), 36);
    assert_eq!(e.command, "git push");
    assert_eq!(e.cwd, "/home/p");
    assert_eq!(e.exit_code, 0);
    assert_eq!(e.duration_ms, 1_234);
    let listed = store.scan(None, false);
    assert_eq!(listed.len(), 1);
    assert_eq!(listed[0].id, e.id);
}

#[test]
fn log_command_generates_distinct_ids() {
    let mut store = Store::new();
    let a = store.log_command("a".to_string(), "/".to_string(), 0, 1);
    let b = store.log_command("b".to_string(), "/".to_string(), 0, 1);
    assert_ne!(a.id, b.id);
}

#[test]
fn from_events_keeps_the_given_events() {
    let store = Store::from_events(vec![
        ev("a", 5, "/x", "make", -1, 7),
        ev("b", 4, "/y", "ninja", 2, 8),
    ]);
    assert_eq!(store.count(), 2);
    let asc = store.scan(None, false);
    assert_eq!(asc[0].id, "b");
    assert_eq!(asc[1].id, "a");
    assert_eq!(asc[1].exit_code, -1);
}
