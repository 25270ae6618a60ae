//! What holds of the history, whatever was recorded.

use autoreview::schema::{CostEntry, FeedbackVerdict, Finding, FindingSource, FindingSourceKind, Location, ReviewReport, Severity, StorageSyncConfig, SyncMode};
use autoreview::storage::cost_dashboard::{summarize, RunCostRecord};
use autoreview::storage::event_log::{event_log_path, events_dir};
use autoreview::storage::history_store::SkillVersionRow;
use autoreview::storage::skill_versions::number_of_version;
use autoreview::storage::sync::{is_event_file, names_address, sync_location};
use autoreview::storage::HistoryStore;

fn finding(id: &str, fingerprint: &str, title: &str) -> Finding {
    Finding {
        id: id.to_string(),
        fingerprint: fingerprint.to_string(),
        source: FindingSource { kind: FindingSourceKind::Agent, tool: "agent-cli".into(), rule_id: Some("r".into()), aspect: None },
        category: "correctness".into(),
        severity: Severity::Medium,
        title: title.to_string(),
        message: "m".into(),
        location: Location { path: "a.go".into(), start_line: 1, snippet: "x".into() },
    }
}

fn report(run_id: &str, created_at: &str, findings: Vec<Finding>) -> ReviewReport {
    ReviewReport { run_id: run_id.into(), created_at: created_at.into(), findings }
}

fn run(day: &str, usd: u64, stages: &[(&str, u64)]) -> RunCostRecord {
    let entry = |usd: u64| CostEntry { input_tokens: 1, output_tokens: 2, usd: Some(usd), wall_ms: 3 };
    RunCostRecord {
        run_id: day.to_string(),
        created_at: format!("{day}T00:00:00Z"),
        base_ref: "a".into(),
        head_ref: "b".into(),
        total: entry(usd),
        per_stage: stages.iter().map(|(name, usd)| (name.to_string(), entry(*usd))).collect(),
    }
}

#[test]
fn the_most_recent_finding_of_an_id_is_found() {
    let mut store = HistoryStore::open_in_memory();
    store.record_run(&report("run-2", "2026-07-13T00:00:00Z", vec![finding("f", "fp-new", "t")]));
    store.record_run(&report("run-1", "2026-07-12T00:00:00Z", vec![finding("f", "fp-old", "t"), finding("g", "fp-g", "t")]));
    assert_eq!(store.find_finding_by_id("f").unwrap().fingerprint, "fp-new");
    assert_eq!(store.find_finding_by_id("g").unwrap().fingerprint, "fp-g");
    assert!(store.find_finding_by_id("h").is_none());
    assert_eq!(store.most_recent_run_id(), Some("run-2".to_string()));
}

#[test]
fn verdicts_are_those_on_the_findings_of_the_run() {
    let mut store = HistoryStore::open_in_memory();
    store.record_run(&report("run-1", "2026-07-12T00:00:00Z", vec![finding("f", "fp-f", "first"), finding("g", "fp-g", "second")]));
    store.record_run(&report("run-2", "2026-07-13T00:00:00Z", vec![finding("h", "fp-h", "third")]));
    let lookup = store.find_finding_by_id("f").unwrap();
    store.record_feedback("f", &lookup, FeedbackVerdict::FalsePositive, Some("no"), "2026-07-14T00:00:00Z");
    store.record_feedback("f", &lookup, FeedbackVerdict::TruePositive, None, "2026-07-15T00:00:00Z");
    let known: Vec<(String, String)> = store.known_verdicts_for_run("run-1").into_iter().map(|v| (v.title, v.verdict)).collect();
    assert_eq!(known, vec![("first".to_string(), "false_positive".to_string()), ("first".to_string(), "true_positive".to_string())]);
    assert!(store.known_verdicts_for_run("run-2").is_empty());
    assert_eq!(store.runs_with_known_verdicts(), vec!["run-1".to_string()]);
    assert_eq!(store.count_fp_feedback_for_rule("r"), 1);
    assert_eq!(store.fp_feedback_with_notes().len(), 1);
}

#[test]
fn a_firing_counts_for_its_own_rule_only() {
    let mut store = HistoryStore::open_in_memory();
    store.ensure_rule_tracked("a", "shadow", "2026-07-01T00:00:00Z");
    store.ensure_rule_tracked("b", "shadow", "2026-07-01T00:00:00Z");
    store.record_shadow_firing("a", "fp", "run-1", "a.go", 1, "agreed", "2026-07-02T00:00:00Z");
    assert_eq!(store.rule_state("a").unwrap().firings, 1);
    assert_eq!(store.rule_state("b").unwrap().firings, 0);
    store.set_rule_status("a", "active");
    let a = store.rule_state("a").unwrap();
    assert_eq!((a.status.as_str(), a.firings, a.agent_agreed), ("active", 1, 1));
    assert_eq!(store.rule_state("b").unwrap().status, "shadow");
    assert_eq!(store.recent_shadow_firings("a", 0).len(), 0);
    assert_eq!(store.recent_shadow_firings("b", 5).len(), 0);
}

#[test]
fn a_version_that_is_recorded_again_is_replaced() {
    let mut store = HistoryStore::open_in_memory();
    store.record_skill_version("design", "1", "old", "2026-07-01T00:00:00Z");
    store.record_skill_version("design", "1", "new", "2026-07-02T00:00:00Z");
    assert_eq!(store.skill_version_source("design", "1"), Some("new".to_string()));
    assert_eq!(store.list_skill_versions("design").len(), 1);
    assert_eq!(store.skill_version_source("design", "2"), None);
    assert_eq!(store.skill_version_source("security", "1"), None);
    store.skill_versions.push(SkillVersionRow { aspect: "design".into(), version: "4".into(), source: None, valid_from: "2026-07-03T00:00:00Z".into() });
    assert_eq!(store.latest_skill_version("design"), Some(4));
    assert_eq!(store.list_skill_versions("design").len(), 2);
    assert_eq!(store.skill_version_source("design", "4"), None);
}

#[test]
fn versions_count_by_the_integer_they_begin_with() {
    assert_eq!(number_of_version("10"), 10);
    assert_eq!(number_of_version("3-beta"), 3);
    assert_eq!(number_of_version(" +7"), 7);
    assert_eq!(number_of_version("-2"), -2);
    assert_eq!(number_of_version("beta"), 0);
    assert_eq!(number_of_version(""), 0);
    assert_eq!(number_of_version("99999999999999999999"), i64::MAX);
}

#[test]
fn a_fingerprint_counts_once_among_the_verdicts_asked_for() {
    let mut store = HistoryStore::open_in_memory();
    for (fingerprint, verdict) in [
        ("a", FeedbackVerdict::FalsePositive),
        ("a", FeedbackVerdict::FalsePositive),
        ("b", FeedbackVerdict::TruePositive),
        ("c", FeedbackVerdict::FalsePositive),
    ] {
        store.record_embedding(fingerprint, verdict, vec![0, 0, 128, 63], "2026-07-01T00:00:00Z");
    }
    let wanted = [FeedbackVerdict::FalsePositive];
    let rows = store.scanned_embeddings(&wanted);
    assert_eq!(rows.len(), 3);
    assert!(rows.iter().all(|row| row.verdict == "false_positive"));
    assert_eq!(store.count_similar_embeddings(&wanted, &vec![true, true, true]), 2);
    assert_eq!(store.count_similar_embeddings(&wanted, &vec![false, false, false]), 0);
}

#[test]
fn dashboards_list_dear_stages_and_early_days_first() {
    let records = vec![
        run("2026-07-13", 30, &[("cheap", 1), ("dear", 29)]),
        run("2026-07-12", 12, &[("cheap", 2), ("dear", 10)]),
    ];
    let forwards = summarize(&records.iter().collect::<Vec<_>>());
    let backwards = summarize(&records.iter().rev().collect::<Vec<_>>());
    assert_eq!(forwards.total_usd, 42);
    assert_eq!(forwards.total_usd, backwards.total_usd);
    let named = |sums: &Vec<autoreview::storage::cost_dashboard::NamedSum>| -> Vec<(String, u128)> {
        sums.iter().map(|s| (s.name.clone(), s.usd)).collect()
    };
    assert_eq!(named(&forwards.by_stage_usd), vec![("dear".to_string(), 39), ("cheap".to_string(), 3)]);
    assert_eq!(named(&forwards.by_day_usd), vec![("2026-07-12".to_string(), 12), ("2026-07-13".to_string(), 30)]);
    assert_eq!(named(&forwards.by_day_usd), named(&backwards.by_day_usd));
}

#[test]
fn hosts_write_to_files_of_their_own() {
    assert_eq!(events_dir("/h"), "/h/events");
    assert_eq!(event_log_path("/h", "2026-07-14", "x"), "/h/events/2026-07-14-x.jsonl");
    assert_ne!(event_log_path("/h", "2026-07-14", "x"), event_log_path("/h", "2026-07-14", "y"));
    assert!(is_event_file("2026-07-14-x.jsonl") && !is_event_file("x.json"));
}

#[test]
fn names_are_told_from_addresses() {
    assert!(names_address("https://x/y.git") && names_address("/tmp/x") && names_address("git@h:x"));
    assert!(!names_address("origin"));
    let off = StorageSyncConfig { mode: SyncMode::Off, location: None, branch: "b".to_string() };
    assert_eq!(sync_location(&off), None);
}
