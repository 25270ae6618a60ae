//! Mining comments on GitHub pull requests.

use autoreview::rule_factory::category_heuristics::guess_category;
use autoreview::rule_factory::mine_from_comments::{comment_to_mined_row, GhReviewComment};

fn comment(id: u64, body: &str, path: Option<&str>) -> GhReviewComment {
    GhReviewComment { id, body: body.to_string(), path: path.map(str::to_string) }
}

#[test]
fn maps_a_real_shaped_comment_into_a_mined_row() {
    let c = comment(3569741960, "The help text says it scans all known agent host directories, but the list is incomplete and misleading.", Some("pkg/cmd/skills/update/update.go"));
    let row = comment_to_mined_row(&c, 13864).unwrap();
    assert_eq!(row.fingerprint, "gh-comment-3569741960");
    assert_eq!(row.run_id, "pr-13864");
    assert_eq!(row.rule_id_or_aspect, "pr-review-comment");
    assert!(row.title.contains("update.go"), "got: {}", row.title);
    assert_eq!(row.message, c.body);
}

#[test]
fn mine_from_comments_filters_out_short_low_signal_comments() {
    for body in ["done", "nit", "+1", "same here", ""] {
        assert!(comment_to_mined_row(&comment(1, body, None), 1).is_none(), "expected {body:?} to be filtered");
    }
}

#[test]
fn keeps_a_substantive_comment_with_no_path() {
    let c = comment(2, "This function doesn't handle the case where the input list is empty, which will panic downstream.", None);
    assert!(comment_to_mined_row(&c, 1).is_some());
}

#[test]
fn mine_from_comments_guesses_security_category_for_injection_language() {
    assert_eq!(guess_category("This looks vulnerable to SQL injection if the input isn't sanitized."), "security");
}

#[test]
fn mine_from_comments_guesses_performance_category_for_n_plus_one_language() {
    assert_eq!(guess_category("This issues a query inside the loop, which is an N+1 pattern."), "performance");
}

#[test]
fn mine_from_comments_security_keywords_win_over_performance_keywords_when_both_present() {
    assert_eq!(guess_category("This SQL injection risk also makes the loop slow."), "security");
}

#[test]
fn mine_from_comments_defaults_to_correctness_when_no_keyword_matches() {
    assert_eq!(guess_category("This should check for nil before dereferencing."), "correctness");
}

#[test]
fn different_comments_across_different_prs_yield_distinct_run_ids() {
    let a = comment_to_mined_row(&comment(1, "Missing null check before dereferencing this pointer here.", None), 100).unwrap();
    let b = comment_to_mined_row(&comment(2, "Missing null check before dereferencing this pointer here.", None), 200).unwrap();
    assert_ne!(a.run_id, b.run_id);
}
