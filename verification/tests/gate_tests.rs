use ctxlog::gate::gate_decide;
use ctxlog::gate::DebounceState;
use ctxlog::gate::GateDecision;

fn tokens(words: &[&str]) -> Vec<String> {
    words.iter().map(|w| w.to_string()).collect()
}

fn prior(text: &str, at_ms: i64) -> DebounceState {
    DebounceState { last_command_text: text.to_string(), last_attempt_ms: at_ms }
}

#[test]
fn denylisted_commands_rejected_without_state_update() {
    for name in ["ls", "clear", "pwd", "history", "exit"] {
        let out = gate_decide(&tokens(&[name, "-la"]), true, None, 1_000_000);
        assert_eq!(out.decision, GateDecision::RejectedDenylisted);
        assert!(out.new_state.is_none());
    }
}

#[test]
fn denylist_matches_whole_first_token_only() {
    let out = gate_decide(&tokens(&["lsof"]), true, None, 1_000_000);
    assert_eq!(out.decision, GateDecision::Accepted);
}

#[test]
fn non_interactive_rejected_without_state_update() {
    let out = gate_decide(&tokens(&["git", "status"]), false, None, 1_000_000);
    assert_eq!(out.decision, GateDecision::RejectedNotInteractive);
    assert!(out.new_state.is_none());
}

#[test]
fn duplicate_rejected_regardless_of_elapsed_time() {
    let p = prior("git status", 0);
    let out = gate_decide(&tokens(&["git", "status"]), true, Some(&p), 999_999_999);
    assert_eq!(out.decision, GateDecision::RejectedDuplicate);
    assert!(out.new_state.is_none());
}

#[test]
fn distinct_command_under_half_second_rejected() {
    let p = prior("git status", 10_000);
    let out = gate_decide(&tokens(&["git", "diff"]), true, Some(&p), 10_499);
    assert_eq!(out.decision, GateDecision::RejectedDebounced);
    assert!(out.new_state.is_none());
}

#[test]
fn distinct_command_at_half_second_accepted() {
    let p = prior("git status", 10_000);
    let out = gate_decide(&tokens(&["git", "diff"]), true, Some(&p), 10_500);
    assert_eq!(out.decision, GateDecision::Accepted);
    let st = out.new_state.expect("accepted attempts persist state");
    assert_eq!(st.last_command_text, "git diff");
    assert_eq!(st.last_attempt_ms, 10_500);
}

#[test]
fn accepted_without_prior_state() {
    let out = gate_decide(&tokens(&["make", "-j4"]), true, None, 42);
    assert_eq!(out.decision, GateDecision::Accepted);
    let st = out.new_state.expect("accepted attempts persist state");
    assert_eq!(st.last_command_text, "make -j4");
    assert_eq!(st.last_attempt_ms, 42);
}

#[test]
fn command_text_is_tokens_joined_by_spaces() {
    let out = gate_decide(&tokens(&["git", "commit", "-m", "fix"]), true, None, 7);
    assert_eq!(out.command_text, "git commit -m fix");
}

#[test]
fn clock_running_backwards_counts_as_within_the_window() {
    let p = prior("git status", 10_000);
    let out = gate_decide(&tokens(&["git", "diff"]), true, Some(&p), 9_000);
    assert_eq!(out.decision, GateDecision::RejectedDebounced);
}

#[test]
fn interactivity_checked_before_denylist() {
    let out = gate_decide(&tokens(&["ls"]), false, None, 7);
    assert_eq!(out.decision, GateDecision::RejectedNotInteractive);
}

#[test]
fn duplicate_checked_before_debounce() {
    let p = prior("git status", 10_000);
    let out = gate_decide(&tokens(&["git", "status"]), true, Some(&p), 10_001);
    assert_eq!(out.decision, GateDecision::RejectedDuplicate);
}
