//! Seeds that say what a shipped rule says already.

use autoreview::rule_factory::existing_rules::{find_similar_existing_rule, ExistingRuleSummary};
use autoreview::rule_factory::mine::{CandidateSeed, RepresentativeSnippet};

fn seed(category: &str, title: &str, message: &str) -> CandidateSeed {
    CandidateSeed {
        cluster_id: "test-cluster".to_string(),
        category: category.to_string(),
        rule_id_or_aspect: "correctness-specialist".to_string(),
        member_fingerprints: vec!["a".to_string(), "b".to_string(), "c".to_string()],
        distinct_run_count: 3,
        representative_snippets: vec![RepresentativeSnippet { fingerprint: "a".to_string(), title: title.to_string(), message: message.to_string() }],
    }
}

fn rule(id: &str, category: &str, message: &str) -> ExistingRuleSummary {
    ExistingRuleSummary { id: id.to_string(), category: category.to_string(), message: message.to_string() }
}

#[test]
fn flags_a_seed_that_closely_matches_an_existing_rules_message() {
    let s = seed("security", "Insecure cookie", "Cookie is set without the Secure flag, exposing it over plain HTTP");
    let existing = vec![rule("go-insecure-cookie", "security", "Cookie is set without the Secure flag, exposing it over plain HTTP connections")];
    let m = find_similar_existing_rule(&s, &existing).unwrap();
    assert_eq!(m.rule_id, "go-insecure-cookie");
    assert!(m.similarity.at_least(55), "got: {m:?}");
}

#[test]
fn does_not_match_a_lexically_dissimilar_existing_rule() {
    let s = seed("security", "SQL injection risk", "User input flows into a raw query string");
    let existing = vec![rule("go-insecure-cookie", "security", "Cookie is set without the Secure flag")];
    assert!(find_similar_existing_rule(&s, &existing).is_none());
}

#[test]
fn does_not_match_across_categories_even_with_identical_text() {
    let s = seed("design", "Insecure cookie", "Cookie is set without the Secure flag");
    let existing = vec![rule("go-insecure-cookie", "security", "Cookie is set without the Secure flag")];
    assert!(find_similar_existing_rule(&s, &existing).is_none());
}

#[test]
fn returns_none_against_an_empty_existing_rule_set() {
    let s = seed("security", "Insecure cookie", "Cookie is set without the Secure flag");
    assert!(find_similar_existing_rule(&s, &[]).is_none());
}

#[test]
fn picks_the_highest_scoring_match_when_multiple_rules_are_similar() {
    let s = seed("security", "Insecure cookie", "Cookie is set without the Secure flag, exposing it over plain HTTP");
    let existing = vec![
        rule("go-insecure-cookie", "security", "Cookie is set without the Secure flag, exposing it over plain HTTP connections"),
        rule("java-insecure-cookie", "security", "Cookie lacks Secure flag"),
    ];
    let m = find_similar_existing_rule(&s, &existing).unwrap();
    assert_eq!(m.rule_id, "go-insecure-cookie", "the closer textual match should win, got: {m:?}");
}
