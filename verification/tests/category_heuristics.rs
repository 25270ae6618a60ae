//! Guessing the category of a finding from its words.

use autoreview::rule_factory::category_heuristics::guess_category;

#[test]
fn category_heuristics_guesses_security_category_for_injection_language() {
    assert_eq!(guess_category("This looks vulnerable to SQL injection if the input isn't sanitized."), "security");
}

#[test]
fn category_heuristics_guesses_performance_category_for_n_plus_one_language() {
    assert_eq!(guess_category("This issues a query inside the loop, which is an N+1 pattern."), "performance");
}

#[test]
fn category_heuristics_security_keywords_win_over_performance_keywords_when_both_present() {
    assert_eq!(guess_category("This SQL injection risk also makes the loop slow."), "security");
}

#[test]
fn category_heuristics_defaults_to_correctness_when_no_keyword_matches() {
    assert_eq!(guess_category("This should check for nil before dereferencing."), "correctness");
}
