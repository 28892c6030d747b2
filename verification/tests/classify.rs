//! Tests of the classifiers, the text helpers, the post-action gate and
//! the log-file name.

use scanpool::archive::{classify_entries, format_failure, open_failure, EntrySummary};
use scanpool::gate::confirm_and_act;
use scanpool::logname::{default_log_name, log_name};
use scanpool::outcome::Outcome;
use scanpool::pull::{classify_pull, PullStatus};
use scanpool::queue::WorkItem;
use scanpool::strutil::{
    contains_lowered, contains_str, decimal_string, has_extension, is_affirmative, rel_path,
};

#[test]
fn test_classify_entries_empty_valid() {
    let entries: Vec<EntrySummary> = Vec::new();
    assert!(matches!(classify_entries(&entries), Outcome::Success));
}

#[test]
fn test_classify_entries_all_fine_valid() {
    let entries = vec![
        EntrySummary { encrypted: false, error: None },
        EntrySummary { encrypted: false, error: None },
    ];
    assert!(matches!(classify_entries(&entries), Outcome::Success));
}

#[test]
fn test_classify_entries_encrypted_password() {
    let entries = vec![
        EntrySummary { encrypted: false, error: None },
        EntrySummary { encrypted: true, error: None },
    ];
    match classify_entries(&entries) {
        Outcome::Skipped(reason) => assert_eq!(reason, "password protected"),
        other => panic!("expected a skip, got {:?}", outcome_kind(&other)),
    }
}

#[test]
fn test_classify_entries_password_text() {
    let entries = vec![EntrySummary {
        encrypted: false,
        error: Some(String::from("Password required to decrypt file")),
    }];
    assert!(matches!(classify_entries(&entries), Outcome::Skipped(_)));
}

#[test]
fn test_classify_entries_corrupted_message() {
    let entries = vec![
        EntrySummary { encrypted: false, error: None },
        EntrySummary { encrypted: false, error: Some(String::from("bad block")) },
    ];
    match classify_entries(&entries) {
        Outcome::Failed(msg) => assert_eq!(msg, "Cannot read file at index 1: bad block"),
        other => panic!("expected a failure, got {:?}", outcome_kind(&other)),
    }
}

#[test]
fn test_open_failure_message() {
    match open_failure(String::from("No such file or directory")) {
        Outcome::Failed(msg) => assert_eq!(msg, "Cannot open file: No such file or directory"),
        other => panic!("expected a failure, got {:?}", outcome_kind(&other)),
    }
}

#[test]
fn test_format_failure_message() {
    match format_failure(String::from("invalid Zip archive")) {
        Outcome::Failed(msg) => assert_eq!(msg, "Invalid zip format: invalid Zip archive"),
        other => panic!("expected a failure, got {:?}", outcome_kind(&other)),
    }
}

fn outcome_kind(o: &Outcome) -> &'static str {
    match o {
        Outcome::Success => "success",
        Outcome::Skipped(_) => "skipped",
        Outcome::Failed(_) => "failed",
        Outcome::Unsupported => "unsupported",
    }
}

#[test]
fn test_classify_pull_success() {
    assert!(matches!(classify_pull(true, Some(0), ""), PullStatus::Updated));
}

#[test]
fn test_classify_pull_auth_text_case_insensitive() {
    let stderr = "fatal: Authentication FAILED for 'https://example.invalid/repo'";
    assert!(matches!(
        classify_pull(false, Some(1), stderr),
        PullStatus::AuthRequired
    ));
}

#[test]
fn test_classify_pull_exit_code_auth() {
    assert!(matches!(
        classify_pull(false, Some(128), "some other words"),
        PullStatus::AuthRequired
    ));
}

#[test]
fn test_classify_pull_up_to_date() {
    assert!(matches!(
        classify_pull(false, Some(1), "Already up to date.\n"),
        PullStatus::UpToDate
    ));
    assert!(matches!(
        classify_pull(false, Some(1), "Already up-to-date.\n"),
        PullStatus::UpToDate
    ));
}

#[test]
fn test_classify_pull_error() {
    assert!(matches!(
        classify_pull(false, Some(1), "fatal: unable to access remote"),
        PullStatus::Error
    ));
    assert!(matches!(classify_pull(false, None, ""), PullStatus::Error));
}

#[test]
fn test_gate_negative() {
    let flagged = vec![WorkItem::new(String::from("a.zip"))];
    let results = confirm_and_act(&flagged, "n\n", |_it: &WorkItem| {
        unreachable!("a negative answer must perform no action")
    });
    assert!(results.is_empty());
}

#[test]
fn test_gate_affirmative_with_failure() {
    let flagged = vec![
        WorkItem::new(String::from("a.zip")),
        WorkItem::new(String::from("b.zip")),
        WorkItem::new(String::from("c.zip")),
    ];
    // The middle item's follow-up fails; the others are still attempted.
    let results = confirm_and_act(&flagged, " y\n", |it: &WorkItem| it.path != "b.zip");
    assert_eq!(results, vec![true, false, true]);
}

#[test]
fn test_gate_uppercase_answer() {
    let flagged = vec![WorkItem::new(String::from("a.zip"))];
    let results = confirm_and_act(&flagged, "Y\n", |_it: &WorkItem| true);
    assert_eq!(results, vec![true]);
}

#[test]
fn test_is_affirmative_variants() {
    assert!(is_affirmative("y"));
    assert!(is_affirmative("Y"));
    assert!(is_affirmative("  y \n"));
    assert!(!is_affirmative(""));
    assert!(!is_affirmative("\n"));
    assert!(!is_affirmative("n"));
    assert!(!is_affirmative("yes"));
    assert!(!is_affirmative("y y"));
}

#[test]
fn test_contains_str() {
    assert!(contains_str("Cannot read file", "read"));
    assert!(contains_str("abc", ""));
    assert!(!contains_str("abc", "abd"));
    assert!(!contains_str("ab", "abc"));
}

#[test]
fn test_contains_lowered() {
    assert!(contains_lowered("ACCESS Denied", "access denied"));
    assert!(!contains_lowered("access denied", "ACCESS"));
}

#[test]
fn test_decimal_rendering() {
    assert_eq!(decimal_string(0), "0");
    assert_eq!(decimal_string(7), "7");
    assert_eq!(decimal_string(105), "105");
    assert_eq!(decimal_string(1024), "1024");
}

#[test]
fn test_has_extension_cases() {
    assert!(has_extension("a.zip", "zip"));
    assert!(has_extension("dir/file with spaces.zip", "zip"));
    assert!(has_extension("file-with_special.chars.zip", "zip"));
    assert!(!has_extension("a.ZIP", "zip"));
    assert!(!has_extension(".zip", "zip"));
    assert!(!has_extension("dir/.zip", "zip"));
    assert!(!has_extension("zip", "zip"));
    assert!(!has_extension("a.tar", "zip"));
}

#[test]
fn test_rel_path_cases() {
    assert_eq!(rel_path("/scan/root/a.zip", "/scan/root"), "a.zip");
    assert_eq!(rel_path("/scan/root/a.zip", "/scan/root/"), "a.zip");
    assert_eq!(rel_path("/a.zip", "/"), "a.zip");
    assert_eq!(rel_path("/scan/root/sub/b.zip", "/scan/root"), "sub/b.zip");
    assert_eq!(rel_path("/elsewhere/c.zip", "/scan/root"), "/elsewhere/c.zip");
    assert_eq!(rel_path("/scan/rootx/c.zip", "/scan/root"), "/scan/rootx/c.zip");
    assert_eq!(rel_path("/scan/root", "/scan/root"), "");
    assert_eq!(rel_path("a.zip", ""), "a.zip");
}

#[test]
fn test_log_name_format() {
    assert_eq!(
        log_name(2024, 3, 9, 7, 5, 2, 41),
        "check-zip_20243975241.log"
    );
    assert_eq!(log_name(-1, 1, 1, 0, 0, 0, 0), "check-zip_-1110000.log");
}

#[test]
fn test_default_log_name_frame() {
    let name = default_log_name();
    assert!(name.starts_with("check-zip_"));
    assert!(name.ends_with(".log"));
}
