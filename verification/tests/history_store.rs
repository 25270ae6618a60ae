//! The index over past reviews.

use autoreview::schema::{FeedbackVerdict, Finding, FindingSource, FindingSourceKind, Location, ReviewReport, Severity};
use autoreview::storage::HistoryStore;

fn make_finding(fingerprint: &str) -> Finding {
    Finding {
        id: format!("f-{fingerprint}"),
        fingerprint: fingerprint.to_string(),
        source: FindingSource { kind: FindingSourceKind::Analyzer, tool: "ast-grep".into(), rule_id: Some("go-no-self-comparison".into()), aspect: None },
        category: "correctness".into(),
        severity: Severity::Medium,
        title: "t".into(),
        message: "m".into(),
        location: Location { path: "a.go".into(), start_line: 1, snippet: "x".into() },
    }
}

fn make_agent_finding(fingerprint: &str, title: &str, message: &str) -> Finding {
    let mut finding = make_finding(fingerprint);
    finding.source = FindingSource { kind: FindingSourceKind::Agent, tool: "agent-cli".into(), rule_id: None, aspect: Some("correctness".into()) };
    finding.title = title.to_string();
    finding.message = message.to_string();
    finding
}

fn make_report(run_id: &str, findings: Vec<Finding>) -> ReviewReport {
    make_report_at(run_id, findings, "2026-07-12T00:00:00Z")
}

fn make_report_at(run_id: &str, findings: Vec<Finding>, created_at: &str) -> ReviewReport {
    ReviewReport { run_id: run_id.into(), created_at: created_at.into(), findings }
}

fn embedding_to_bytes(embedding: &[f32]) -> Vec<u8> {
    embedding.iter().flat_map(|x| x.to_le_bytes()).collect()
}

fn embedding_from_bytes(bytes: &[u8]) -> Vec<f32> {
    bytes.chunks(4).map(|c| f32::from_le_bytes([c[0], c[1], c[2], c[3]])).collect()
}

fn cosine_similarity(a: &[f32], b: &[f32]) -> f64 {
    let dot: f64 = a.iter().zip(b).map(|(x, y)| f64::from(*x) * f64::from(*y)).sum();
    let norm = |v: &[f32]| v.iter().map(|x| f64::from(*x) * f64::from(*x)).sum::<f64>().sqrt();
    dot / (norm(a) * norm(b))
}

fn count_similar(store: &HistoryStore, embedding: &[f32], verdicts: &[FeedbackVerdict], threshold: f64) -> u32 {
    let similar = store
        .scanned_embeddings(verdicts)
        .iter()
        .map(|row| cosine_similarity(embedding, &embedding_from_bytes(&row.embedding)) >= threshold)
        .collect();
    store.count_similar_embeddings(verdicts, &similar)
}

#[test]
fn opening_a_store_creates_the_schema_idempotently() {
    let store = HistoryStore::open_in_memory();
    assert_eq!(store.count_findings(), 0);
}

#[test]
fn record_run_inserts_one_row_per_finding() {
    let mut store = HistoryStore::open_in_memory();
    let report = make_report("run-1", vec![make_finding("a"), make_finding("b")]);
    store.record_run(&report);
    assert_eq!(store.count_findings(), 2);
    assert_eq!(store.count_findings_for_run("run-1"), 2);
}

#[test]
fn multiple_runs_accumulate_rather_than_overwrite() {
    let mut store = HistoryStore::open_in_memory();
    store.record_run(&make_report("run-1", vec![make_finding("a")]));
    store.record_run(&make_report("run-2", vec![make_finding("b")]));
    assert_eq!(store.count_findings(), 2);
    assert_eq!(store.count_findings_for_run("run-1"), 1);
    assert_eq!(store.count_findings_for_run("run-2"), 1);
}

#[test]
fn find_finding_by_id_resolves_a_recorded_finding() {
    let mut store = HistoryStore::open_in_memory();
    store.record_run(&make_report("run-1", vec![make_finding("a")]));
    let lookup = store.find_finding_by_id("f-a").expect("finding should be found");
    assert_eq!(lookup.fingerprint, "a");
    assert_eq!(lookup.category, "correctness");
    assert_eq!(lookup.severity, "medium");
    assert_eq!(lookup.rule_id_or_tool, "go-no-self-comparison");
}

#[test]
fn find_finding_by_id_returns_none_for_an_unknown_id() {
    let mut store = HistoryStore::open_in_memory();
    store.record_run(&make_report("run-1", vec![make_finding("a")]));
    assert!(store.find_finding_by_id("f-does-not-exist").is_none());
}

#[test]
fn record_feedback_inserts_a_row_without_touching_the_findings_table() {
    let mut store = HistoryStore::open_in_memory();
    store.record_run(&make_report("run-1", vec![make_finding("a")]));
    let lookup = store.find_finding_by_id("f-a").unwrap();
    store.record_feedback("f-a", &lookup, FeedbackVerdict::FalsePositive, Some("intentional pattern here"), "2026-07-12T00:00:00Z");
    assert_eq!(store.count_feedback_for_fingerprint("a"), 1);
    assert_eq!(store.count_findings(), 1);
}

#[test]
fn record_feedback_accumulates_multiple_verdicts_for_the_same_finding() {
    let mut store = HistoryStore::open_in_memory();
    store.record_run(&make_report("run-1", vec![make_finding("a")]));
    let lookup = store.find_finding_by_id("f-a").unwrap();
    store.record_feedback("f-a", &lookup, FeedbackVerdict::FalsePositive, None, "2026-07-12T00:00:00Z");
    store.record_feedback("f-a", &lookup, FeedbackVerdict::FalsePositive, None, "2026-07-13T00:00:00Z");
    assert_eq!(store.count_feedback_for_fingerprint("a"), 2);
}

#[test]
fn most_recent_run_id_is_none_when_history_is_empty() {
    let store = HistoryStore::open_in_memory();
    assert_eq!(store.most_recent_run_id(), None);
}

#[test]
fn most_recent_run_id_picks_the_latest_by_created_at() {
    let mut store = HistoryStore::open_in_memory();
    store.record_run(&make_report_at("run-1", vec![make_finding("a")], "2026-07-10T00:00:00Z"));
    store.record_run(&make_report_at("run-2", vec![make_finding("b")], "2026-07-12T00:00:00Z"));
    assert_eq!(store.most_recent_run_id(), Some("run-2".to_string()));
}

#[test]
fn fingerprints_for_run_returns_only_that_runs_fingerprints() {
    let mut store = HistoryStore::open_in_memory();
    store.record_run(&make_report_at("run-1", vec![make_finding("a"), make_finding("b")], "2026-07-10T00:00:00Z"));
    store.record_run(&make_report_at("run-2", vec![make_finding("c")], "2026-07-12T00:00:00Z"));
    let fps = store.fingerprints_for_run("run-1");
    assert!(fps.contains("a") && fps.contains("b"));
    assert!(!fps.contains("c"));
}

#[test]
fn agent_findings_for_mining_returns_only_agent_sourced_findings() {
    let mut store = HistoryStore::open_in_memory();
    store.record_run(&make_report("run-1", vec![make_finding("a"), make_agent_finding("b", "Missing null check", "Parameter x is not null-checked before use")]));
    let mined = store.agent_findings_for_mining();
    assert_eq!(mined.len(), 1);
    assert_eq!(mined[0].fingerprint, "b");
    assert_eq!(mined[0].title, "Missing null check");
}

#[test]
fn count_similar_embeddings_counts_only_vectors_above_the_threshold() {
    let mut store = HistoryStore::open_in_memory();
    store.record_embedding("a", FeedbackVerdict::FalsePositive, embedding_to_bytes(&[1.0, 0.0]), "2026-07-12T00:00:00Z");
    store.record_embedding("b", FeedbackVerdict::FalsePositive, embedding_to_bytes(&[0.0, 1.0]), "2026-07-12T00:00:00Z");
    assert_eq!(count_similar(&store, &[1.0, 0.0], &[FeedbackVerdict::FalsePositive], 0.9), 1);
}

#[test]
fn count_similar_embeddings_ignores_a_different_verdict() {
    let mut store = HistoryStore::open_in_memory();
    store.record_embedding("a", FeedbackVerdict::TruePositive, embedding_to_bytes(&[1.0, 0.0]), "2026-07-12T00:00:00Z");
    assert_eq!(count_similar(&store, &[1.0, 0.0], &[FeedbackVerdict::FalsePositive], 0.9), 0);
}

#[test]
fn count_similar_embeddings_counts_each_matching_fingerprint_once() {
    let mut store = HistoryStore::open_in_memory();
    store.record_embedding("a", FeedbackVerdict::FalsePositive, embedding_to_bytes(&[1.0, 0.0]), "2026-07-12T00:00:00Z");
    store.record_embedding("a", FeedbackVerdict::FalsePositive, embedding_to_bytes(&[1.0, 0.01]), "2026-07-13T00:00:00Z");
    assert_eq!(count_similar(&store, &[1.0, 0.0], &[FeedbackVerdict::FalsePositive], 0.9), 1);
}

#[test]
fn count_similar_embeddings_aggregates_across_multiple_verdicts_in_one_call() {
    let mut store = HistoryStore::open_in_memory();
    store.record_embedding("a", FeedbackVerdict::TruePositive, embedding_to_bytes(&[1.0, 0.0]), "2026-07-12T00:00:00Z");
    store.record_embedding("b", FeedbackVerdict::AcceptedRisk, embedding_to_bytes(&[1.0, 0.0]), "2026-07-12T00:00:00Z");
    store.record_embedding("c", FeedbackVerdict::FixInFollowup, embedding_to_bytes(&[1.0, 0.0]), "2026-07-12T00:00:00Z");
    store.record_embedding("d", FeedbackVerdict::DoesntApply, embedding_to_bytes(&[1.0, 0.0]), "2026-07-12T00:00:00Z");
    let tp_like = &[FeedbackVerdict::TruePositive, FeedbackVerdict::AcceptedRisk, FeedbackVerdict::FixInFollowup];
    assert_eq!(count_similar(&store, &[1.0, 0.0], tp_like, 0.9), 3, "DoesntApply must not count toward the tp-like bucket");
}

#[test]
fn ensure_rule_tracked_is_idempotent_and_does_not_reset_status() {
    let mut store = HistoryStore::open_in_memory();
    store.ensure_rule_tracked("go-example", "shadow", "2026-07-01T00:00:00Z");
    store.set_rule_status("go-example", "promoted");
    store.ensure_rule_tracked("go-example", "shadow", "2026-07-01T00:00:00Z");
    let state = store.rule_state("go-example").unwrap();
    assert_eq!(state.status, "promoted");
}

#[test]
fn invalidate_rule_sets_invalid_at_without_touching_status() {
    let mut store = HistoryStore::open_in_memory();
    store.ensure_rule_tracked("go-example", "shadow", "2026-07-01T00:00:00Z");
    assert!(store.rule_state("go-example").unwrap().invalid_at.is_none());
    store.invalidate_rule("go-example", "2026-07-10T00:00:00Z");
    let state = store.rule_state("go-example").unwrap();
    assert_eq!(state.invalid_at.as_deref(), Some("2026-07-10T00:00:00Z"));
    assert_eq!(state.status, "shadow", "invalidating must not change the status column");
}

#[test]
fn latest_skill_version_is_none_for_an_untracked_aspect() {
    let store = HistoryStore::open_in_memory();
    assert_eq!(store.latest_skill_version("correctness"), None);
}

#[test]
fn record_and_read_back_a_skill_version() {
    let mut store = HistoryStore::open_in_memory();
    store.record_skill_version("correctness", "0", "baseline instructions", "2026-07-01T00:00:00Z");
    store.record_skill_version("correctness", "1", "baseline instructions\n\nnew guidance line", "2026-07-02T00:00:00Z");

    assert_eq!(store.latest_skill_version("correctness"), Some(1));
    assert_eq!(store.skill_version_source("correctness", "0").as_deref(), Some("baseline instructions"));
    assert_eq!(store.skill_version_source("correctness", "1").as_deref(), Some("baseline instructions\n\nnew guidance line"));
    assert_eq!(store.skill_version_source("correctness", "2"), None);
}

#[test]
fn list_skill_versions_orders_numerically_not_lexically() {
    let mut store = HistoryStore::open_in_memory();
    for v in ["0", "1", "2", "10"] {
        store.record_skill_version("correctness", v, "x", "2026-07-01T00:00:00Z");
    }
    let versions: Vec<String> = store.list_skill_versions("correctness").into_iter().map(|(v, _)| v).collect();
    assert_eq!(versions, vec!["0", "1", "2", "10"], "numeric ordering must put 10 after 2, not between 1 and 2 lexically");
}

#[test]
fn different_aspects_track_versions_independently() {
    let mut store = HistoryStore::open_in_memory();
    store.record_skill_version("correctness", "0", "a", "2026-07-01T00:00:00Z");
    store.record_skill_version("security", "0", "b", "2026-07-01T00:00:00Z");
    store.record_skill_version("security", "1", "b2", "2026-07-02T00:00:00Z");
    assert_eq!(store.latest_skill_version("correctness"), Some(0));
    assert_eq!(store.latest_skill_version("security"), Some(1));
}

#[test]
fn record_shadow_firing_updates_counters_and_appends_a_log_row() {
    let mut store = HistoryStore::open_in_memory();
    store.ensure_rule_tracked("go-example", "shadow", "2026-07-01T00:00:00Z");
    store.record_shadow_firing("go-example", "fp1", "run-1", "a.go", 10, "agreed", "2026-07-02T00:00:00Z");
    store.record_shadow_firing("go-example", "fp2", "run-2", "b.go", 20, "disagreed", "2026-07-03T00:00:00Z");
    store.record_shadow_firing("go-example", "fp3", "run-2", "c.go", 30, "no_signal", "2026-07-03T00:00:00Z");

    let state = store.rule_state("go-example").unwrap();
    assert_eq!(state.firings, 3);
    assert_eq!(state.agent_agreed, 1);
    assert_eq!(state.agent_disagreed, 1);
    assert_eq!(store.distinct_shadow_run_count("go-example"), 2);

    let recent = store.recent_shadow_firings("go-example", 10);
    assert_eq!(recent.len(), 3);
    assert_eq!(recent[0].fingerprint, "fp3", "most recent first");
}

#[test]
fn rule_state_is_none_for_an_untracked_rule() {
    let store = HistoryStore::open_in_memory();
    assert!(store.rule_state("never-fired").is_none());
}

#[test]
fn count_fp_feedback_for_rule_counts_only_fp_verdicts_for_that_rule() {
    let mut store = HistoryStore::open_in_memory();
    store.record_run(&make_report("run-1", vec![make_finding("a")]));
    let lookup = store.find_finding_by_id("f-a").unwrap();
    store.record_feedback("f-a", &lookup, FeedbackVerdict::FalsePositive, None, "2026-07-12T00:00:00Z");
    store.record_feedback("f-a", &lookup, FeedbackVerdict::TruePositive, None, "2026-07-13T00:00:00Z");
    assert_eq!(store.count_fp_feedback_for_rule("go-no-self-comparison"), 1);
    assert_eq!(store.count_fp_feedback_for_rule("some-other-rule"), 0);
}

#[test]
fn count_fp_feedback_for_rule_excludes_doesnt_apply() {
    let mut store = HistoryStore::open_in_memory();
    store.record_run(&make_report("run-1", vec![make_finding("a")]));
    let lookup = store.find_finding_by_id("f-a").unwrap();
    store.record_feedback("f-a", &lookup, FeedbackVerdict::DoesntApply, None, "2026-07-12T00:00:00Z");
    store.record_feedback("f-a", &lookup, FeedbackVerdict::DoesntApply, None, "2026-07-13T00:00:00Z");
    assert_eq!(store.count_fp_feedback_for_rule("go-no-self-comparison"), 0);
}

#[test]
fn fp_feedback_with_notes_excludes_unnoted_and_non_fp_feedback() {
    let mut store = HistoryStore::open_in_memory();
    store.record_run(&make_report("run-1", vec![make_finding("a"), make_finding("b"), make_finding("c")]));
    let a = store.find_finding_by_id("f-a").unwrap();
    let b = store.find_finding_by_id("f-b").unwrap();
    let c = store.find_finding_by_id("f-c").unwrap();
    store.record_feedback("f-a", &a, FeedbackVerdict::FalsePositive, Some("intentional pattern here"), "2026-07-12T00:00:00Z");
    store.record_feedback("f-b", &b, FeedbackVerdict::FalsePositive, None, "2026-07-12T00:00:00Z");
    store.record_feedback("f-c", &c, FeedbackVerdict::TruePositive, Some("real bug"), "2026-07-12T00:00:00Z");

    let rows = store.fp_feedback_with_notes();
    assert_eq!(rows.len(), 1);
    assert_eq!(rows[0].note, "intentional pattern here");
}

#[test]
fn known_verdicts_for_run_joins_findings_with_their_feedback() {
    let mut store = HistoryStore::open_in_memory();
    store.record_run(&make_report("run-1", vec![make_finding("a"), make_finding("b")]));
    let a = store.find_finding_by_id("f-a").unwrap();
    store.record_feedback("f-a", &a, FeedbackVerdict::FalsePositive, None, "2026-07-12T00:00:00Z");

    let known = store.known_verdicts_for_run("run-1");
    assert_eq!(known.len(), 1, "only 'a' has feedback recorded");
    assert_eq!(known[0].fingerprint, "a");
    assert_eq!(known[0].verdict, "false_positive");
}

#[test]
fn runs_with_known_verdicts_returns_only_runs_with_feedback() {
    let mut store = HistoryStore::open_in_memory();
    store.record_run(&make_report("run-1", vec![make_finding("a")]));
    store.record_run(&make_report("run-2", vec![make_finding("b")]));
    let a = store.find_finding_by_id("f-a").unwrap();
    store.record_feedback("f-a", &a, FeedbackVerdict::TruePositive, None, "2026-07-12T00:00:00Z");

    let runs = store.runs_with_known_verdicts();
    assert_eq!(runs, vec!["run-1".to_string()]);
}
