use ctxlog::text::is_denylisted;
use ctxlog::text::is_self_invocation;
use ctxlog::text::join_tokens;
use ctxlog::text::str_contains;
use ctxlog::text::str_eq;

#[test]
fn str_eq_compares_characters() {
    assert!(str_eq("git status", "git status"));
    assert!(!str_eq("git status", "git statu"));
    assert!(!str_eq("git", "Git"));
    assert!(str_eq("", ""));
}

#[test]
fn str_contains_finds_literal_substrings() {
    assert!(str_contains("git commit -m fix", "commit"));
    assert!(str_contains("abc", "abc"));
    assert!(str_contains("abc", ""));
    assert!(!str_contains("", "a"));
    assert!(!str_contains("abc", "abcd"));
    assert!(!str_contains("git", "GIT"));
    assert!(str_contains("aab", "ab"));
}

#[test]
fn denylist_holds_exactly_the_five_commands() {
    for name in ["ls", "clear", "pwd", "history", "exit"] {
        assert!(is_denylisted(name));
    }
    assert!(!is_denylisted("lsx"));
    assert!(!is_denylisted("cd"));
    assert!(!is_denylisted("LS"));
    assert!(!is_denylisted(""));
}

#[test]
fn self_invocations_match_trimmed_name_with_word_boundary() {
    assert!(is_self_invocation("ctx"));
    assert!(is_self_invocation("  ctx"));
    assert!(is_self_invocation("ctx stats"));
    assert!(is_self_invocation("\tctx\ttoday"));
    assert!(!is_self_invocation("ctxgrep foo"));
    assert!(!is_self_invocation("context"));
    assert!(!is_self_invocation("a ctx"));
    assert!(!is_self_invocation(""));
    assert!(!is_self_invocation("ct"));
}

#[test]
fn join_tokens_separates_with_single_spaces() {
    let toks: Vec<String> = vec!["git".to_string(), "commit".to_string(), "-m".to_string()];
    assert_eq!(join_tokens(&toks), "git commit -m");
    let one: Vec<String> = vec!["make".to_string()];
    assert_eq!(join_tokens(&one), "make");
    let none: Vec<String> = Vec::new();
    assert_eq!(join_tokens(&none), "");
}
