//! Mining false-positive reports for guidance.

use autoreview::skill_evolution::mine::{mine_negative_guidance, proposal_text, NegativeGuidanceSeed};
use autoreview::storage::FpFeedbackRow;

fn row(category: &str, title: &str, message: &str, note: &str) -> FpFeedbackRow {
    FpFeedbackRow { category: category.to_string(), rule_id_or_aspect: "correctness-specialist".to_string(), title: title.to_string(), message: message.to_string(), note: note.to_string() }
}

#[test]
fn clusters_recurring_fp_feedback_by_category_and_similarity() {
    let rows = vec![
        row("correctness", "Missing null check", "Parameter x is not null-checked before use", "validation happens at the boundary"),
        row("correctness", "Missing null check", "Parameter y is not null-checked before use", "we always validate upstream"),
        row("correctness", "Missing null-check", "Parameter z lacks a null check before use", "boundary validation covers this"),
    ];
    let seeds = mine_negative_guidance(rows);
    assert_eq!(seeds.len(), 1, "got: {seeds:#?}");
    assert_eq!(seeds[0].notes.len(), 3);
}

#[test]
fn does_not_form_a_seed_below_the_minimum_member_count() {
    let rows = vec![row("correctness", "Missing null check", "m1", "n1"), row("correctness", "Missing null check", "m2", "n2")];
    assert!(mine_negative_guidance(rows).is_empty());
}

#[test]
fn does_not_cluster_dissimilar_findings_together() {
    let rows = vec![
        row("correctness", "Missing null check", "Parameter x is not null-checked", "n1"),
        row("correctness", "SQL injection risk", "raw query built from input", "n2"),
        row("correctness", "Hardcoded credential", "password literal assigned", "n3"),
    ];
    assert!(mine_negative_guidance(rows).is_empty());
}

#[test]
fn write_proposal_file_writes_a_readable_markdown_document() {
    let seed = NegativeGuidanceSeed {
        cluster_id: "abc123".to_string(),
        category: "correctness".to_string(),
        representative_title: "Missing null check".to_string(),
        representative_message: "Parameter x is not null-checked".to_string(),
        notes: vec!["validation happens at the boundary".to_string()],
    };
    let contents = proposal_text(&seed, Some("Do not flag missing null checks on validated boundary parameters."));
    assert!(contents.contains("Do not flag missing null checks"));
    assert!(contents.contains("validation happens at the boundary"));
}
