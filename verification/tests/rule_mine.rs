//! Mining recurring findings for rules.

use autoreview::rule_factory::mine::mine_candidates;
use autoreview::storage::MinedFindingRow;

fn row(fingerprint: &str, category: &str, title: &str, message: &str, run_id: &str) -> MinedFindingRow {
    MinedFindingRow {
        fingerprint: fingerprint.to_string(),
        category: category.to_string(),
        rule_id_or_aspect: "correctness-specialist".to_string(),
        title: title.to_string(),
        message: message.to_string(),
        run_id: run_id.to_string(),
    }
}

#[test]
fn clusters_similar_recurring_findings_across_distinct_runs() {
    let findings = vec![
        row("a", "correctness", "Missing null check", "Parameter x is not null-checked before use", "run-1"),
        row("b", "correctness", "Missing null check", "Parameter y is not null-checked before use", "run-2"),
        row("c", "correctness", "Missing null-check", "Parameter z lacks a null check before use", "run-3"),
    ];
    let seeds = mine_candidates(findings);
    assert_eq!(seeds.len(), 1, "got: {seeds:#?}");
    assert_eq!(seeds[0].category, "correctness");
    assert_eq!(seeds[0].member_fingerprints.len(), 3);
    assert_eq!(seeds[0].distinct_run_count, 3);
}

#[test]
fn mine_does_not_form_a_seed_below_the_minimum_member_count() {
    let findings = vec![
        row("a", "correctness", "Missing null check", "Parameter x is not null-checked before use", "run-1"),
        row("b", "correctness", "Missing null check", "Parameter y is not null-checked before use", "run-2"),
    ];
    assert!(mine_candidates(findings).is_empty());
}

#[test]
fn does_not_form_a_seed_when_all_members_share_one_run() {
    let findings = vec![
        row("a", "correctness", "Missing null check", "Parameter x is not null-checked before use", "run-1"),
        row("b", "correctness", "Missing null check", "Parameter y is not null-checked before use", "run-1"),
        row("c", "correctness", "Missing null check", "Parameter z is not null-checked before use", "run-1"),
    ];
    assert!(mine_candidates(findings).is_empty(), "3 repeats in one run isn't recurring across time, just one big diff");
}

#[test]
fn does_not_cluster_lexically_dissimilar_findings_together() {
    let findings = vec![
        row("a", "correctness", "Missing null check", "Parameter x is not null-checked before use", "run-1"),
        row("b", "correctness", "SQL injection risk", "User input flows into a raw query string", "run-2"),
        row("c", "correctness", "Hardcoded credential", "A password literal is assigned to a variable", "run-3"),
    ];
    assert!(mine_candidates(findings).is_empty());
}

#[test]
fn does_not_cluster_across_categories_even_with_similar_text() {
    let findings = vec![
        row("a", "correctness", "Missing null check", "Parameter x is not null-checked before use", "run-1"),
        row("b", "design", "Missing null check", "Parameter y is not null-checked before use", "run-2"),
        row("c", "correctness", "Missing null check", "Parameter z is not null-checked before use", "run-3"),
    ];
    assert!(mine_candidates(findings).is_empty());
}

#[test]
fn cluster_id_is_stable_for_the_same_category_and_representative_title() {
    let findings_a = vec![
        row("a", "correctness", "Missing null check", "m1", "run-1"),
        row("b", "correctness", "Missing null check", "m2", "run-2"),
        row("c", "correctness", "Missing null check", "m3", "run-3"),
    ];
    let findings_b = findings_a.clone();
    let seeds_a = mine_candidates(findings_a);
    let seeds_b = mine_candidates(findings_b);
    assert_eq!(seeds_a[0].cluster_id, seeds_b[0].cluster_id);
}
