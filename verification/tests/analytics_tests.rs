use ctxlog::event::CommandLog;
use ctxlog::store::Store;

fn ev(id: &str, ts_ms: i64, cwd: &str, command: &str, dur_ms: u64) -> CommandLog {
    CommandLog {
        id: id.to_string(),
        timestamp_ms: ts_ms,
        cwd: cwd.to_string(),
        command: command.to_string(),
        exit_code: 0,
        duration_ms: dur_ms,
    }
}

#[test]
fn projects_rolls_up_by_folder_ordered_by_count() {
    let mut store = Store::new();
    store.insert(ev("1", 1, "/a", "make", 1_000));
    store.insert(ev("2", 2, "/a", "git status", 2_000));
    store.insert(ev("3", 3, "/b", "cargo build", 5_000));
    let got = store.projects();
    assert_eq!(got.len(), 2);
    assert_eq!(got[0].key, "/a");
    assert_eq!(got[0].count, 2);
    assert_eq!(got[0].total_ms, 3_000);
    assert_eq!(got[1].key, "/b");
    assert_eq!(got[1].count, 1);
    assert_eq!(got[1].total_ms, 5_000);
}

#[test]
fn top_zero_returns_empty_ranking() {
    let mut store = Store::new();
    store.insert(ev("1", 1, "/a", "make", 1));
    store.insert(ev("2", 2, "/a", "make", 1));
    let got = store.top_commands(0);
    assert!(got.is_empty());
}

#[test]
fn top_beyond_distinct_returns_all_without_padding() {
    let mut store = Store::new();
    store.insert(ev("1", 1, "/a", "make", 1));
    store.insert(ev("2", 2, "/a", "make", 1));
    store.insert(ev("3", 3, "/a", "git status", 1));
    let got = store.top_commands(100);
    assert_eq!(got.len(), 2);
    assert_eq!(got[0].key, "make");
    assert_eq!(got[0].count, 2);
    assert_eq!(got[1].key, "git status");
    assert_eq!(got[1].count, 1);
}

#[test]
fn top_excludes_self_invocations() {
    let mut store = Store::new();
    store.insert(ev("1", 1, "/a", "ctx top", 1));
    store.insert(ev("2", 2, "/a", "ctx", 1));
    store.insert(ev("3", 3, "/a", "  ctx stats", 1));
    store.insert(ev("4", 4, "/a", "ctxgrep pattern", 1));
    let got = store.top_commands(10);
    assert_eq!(got.len(), 1);
    assert_eq!(got[0].key, "ctxgrep pattern");
}

#[test]
fn top_ties_keep_first_encounter_order() {
    let mut store = Store::new();
    store.insert(ev("1", 1, "/a", "make", 1));
    store.insert(ev("2", 2, "/a", "cargo test", 1));
    store.insert(ev("3", 3, "/a", "make", 1));
    store.insert(ev("4", 4, "/a", "cargo test", 1));
    store.insert(ev("5", 5, "/a", "ninja", 1));
    let got = store.top_commands(3);
    assert_eq!(got[0].key, "make");
    assert_eq!(got[1].key, "cargo test");
    assert_eq!(got[2].key, "ninja");
}

#[test]
fn summary_of_unmatched_folder_is_no_data_not_zeros() {
    let mut store = Store::new();
    store.insert(ev("1", 1, "/home/project", "make", 1_000));
    assert!(store.summary("/nonexistent").is_none());
}

#[test]
fn summary_matches_folders_by_substring() {
    let mut store = Store::new();
    store.insert(ev("1", 1, "/home/project/src", "make", 1_000));
    store.insert(ev("2", 2, "/home/project", "git status", 2_500));
    store.insert(ev("3", 3, "/tmp", "ls -la", 9_000));
    let got = store.summary("project").expect("matching rows");
    assert_eq!(got.count, 2);
    assert_eq!(got.total_ms, 3_500);
}

#[test]
fn summary_counts_self_invocations_too() {
    let mut store = Store::new();
    store.insert(ev("1", 1, "/p", "ctx stats", 700));
    let got = store.summary("/p").expect("matching rows");
    assert_eq!(got.count, 1);
    assert_eq!(got.total_ms, 700);
}

#[test]
fn summary_of_zero_duration_commands_is_a_real_summary() {
    let mut store = Store::new();
    store.insert(ev("1", 1, "/p", "true", 0));
    let got = store.summary("/p").expect("matching rows");
    assert_eq!(got.count, 1);
    assert_eq!(got.total_ms, 0);
}

#[test]
fn search_finds_exact_substring_case_sensitively_excluding_self() {
    let mut store = Store::new();
    store.insert(ev("1", 3, "/a", "git status", 1));
    store.insert(ev("2", 1, "/a", "echo git is fine", 1));
    store.insert(ev("3", 2, "/a", "GIT STATUS", 1));
    store.insert(ev("4", 4, "/a", "ctx search git", 1));
    store.insert(ev("5", 5, "/a", "make", 1));
    let got = store.search("git");
    let ids: Vec<&str> = got.iter().map(|e| e.id.as_str()).collect();
    assert_eq!(ids, vec!["2", "1"]);
}

#[test]
fn search_with_no_matches_is_empty() {
    let mut store = Store::new();
    store.insert(ev("1", 1, "/a", "make", 1));
    assert!(store.search("git").is_empty());
}

#[test]
fn stats_over_included_events() {
    let mut store = Store::new();
    store.insert(ev("1", 1, "/a", "make", 1_500));
    store.insert(ev("2", 2, "/a", "git status", 500));
    store.insert(ev("3", 3, "/a", "cargo build", 4_000));
    store.insert(ev("4", 4, "/a", "ctx stats", 99_999));
    let got = store.stats();
    assert_eq!(got.count, 3);
    assert_eq!(got.total_ms, 6_000);
    assert_eq!(got.min_ms, Some(500));
    assert_eq!(got.max_ms, Some(4_000));
}

#[test]
fn digest_window_boundary_of_24_hours() {
    let day_ms: i64 = 24 * 3600 * 1000;
    let now: i64 = 10 * day_ms;
    let mut store = Store::new();
    store.insert(ev("in", now - (day_ms - 1_000), "/a", "make", 1_000));
    store.insert(ev("out", now - (day_ms + 1_000), "/a", "git status", 1_000));
    let d = store.digest(now, day_ms);
    assert_eq!(d.total_commands, 1);
    assert_eq!(d.total_ms, 1_000);
}

#[test]
fn digest_event_exactly_at_window_edge_is_included() {
    let day_ms: i64 = 24 * 3600 * 1000;
    let now: i64 = 10 * day_ms;
    let mut store = Store::new();
    store.insert(ev("edge", now - day_ms, "/a", "make", 1_000));
    let d = store.digest(now, day_ms);
    assert_eq!(d.total_commands, 1);
}

#[test]
fn digest_totals_uptime_and_top_threes() {
    let now: i64 = 1_000_000;
    let mut store = Store::new();
    store.insert(ev("1", now - 90_000, "/a", "make", 1_000));
    store.insert(ev("2", now - 80_000, "/b", "make", 2_000));
    store.insert(ev("3", now - 70_000, "/b", "git status", 3_000));
    store.insert(ev("4", now - 60_000, "/c", "make", 4_000));
    store.insert(ev("5", now - 50_000, "/d", "cargo t", 500));
    store.insert(ev("6", now - 40_000, "/a", "ctx today", 9_999));
    let d = store.digest(now, 100_000);
    assert_eq!(d.total_commands, 5);
    assert_eq!(d.total_ms, 10_500);
    assert_eq!(d.uptime_seconds, Some(40));
    assert_eq!(d.top_folders.len(), 3);
    assert_eq!(d.top_folders[0].key, "/b");
    assert_eq!(d.top_folders[0].total_ms, 5_000);
    assert_eq!(d.top_folders[1].key, "/c");
    assert_eq!(d.top_folders[2].key, "/a");
    assert_eq!(d.top_commands.len(), 3);
    assert_eq!(d.top_commands[0].key, "make");
    assert_eq!(d.top_commands[0].count, 3);
    assert_eq!(d.top_commands[1].key, "git status");
    assert_eq!(d.top_commands[2].key, "cargo t");
}

#[test]
fn digest_uptime_absent_with_fewer_than_two_events() {
    let mut store = Store::new();
    let d0 = store.digest(1_000_000, 100_000);
    assert_eq!(d0.total_commands, 0);
    assert!(d0.uptime_seconds.is_none());
    store.insert(ev("1", 999_000, "/a", "make", 1_000));
    let d1 = store.digest(1_000_000, 100_000);
    assert_eq!(d1.total_commands, 1);
    assert!(d1.uptime_seconds.is_none());
}

#[test]
fn digest_groups_only_events_inside_the_window() {
    let now: i64 = 1_000_000;
    let mut store = Store::new();
    store.insert(ev("in", now - 1_000, "/a", "make", 100));
    store.insert(ev("old", now - 900_000, "/a", "make", 100));
    let d = store.digest(now, 10_000);
    assert_eq!(d.total_commands, 1);
    assert_eq!(d.top_commands.len(), 1);
    assert_eq!(d.top_commands[0].count, 1);
    assert_eq!(d.top_folders[0].total_ms, 100);
}

#[test]
fn digest_of_weekly_window() {
    let week_ms: i64 = 7 * 24 * 3600 * 1000;
    let now: i64 = 100 * 24 * 3600 * 1000;
    let mut store = Store::new();
    store.insert(ev("in", now - week_ms + 1, "/a", "make", 100));
    store.insert(ev("out", now - week_ms - 1, "/a", "make", 100));
    let d = store.digest(now, week_ms);
    assert_eq!(d.total_commands, 1);
}
