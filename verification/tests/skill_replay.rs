//! Replaying past runs against a candidate skill.

use autoreview::schema::{FeedbackVerdict, Finding, FindingSource, FindingSourceKind, Location, ReviewReport, Severity};
use autoreview::skill_evolution::replay::{compare_replay, ReplayComparison};
use autoreview::storage::{HistoryStore, KnownVerdict};

fn known(title: &str, message: &str, verdict: &str) -> KnownVerdict {
    KnownVerdict { title: title.to_string(), message: message.to_string(), fingerprint: "fp1".to_string(), verdict: verdict.to_string() }
}

fn finding(title: &str, message: &str) -> Finding {
    Finding {
        id: "f-1".to_string(),
        fingerprint: "fp1".to_string(),
        source: FindingSource { kind: FindingSourceKind::Agent, tool: "agent-cli".into(), rule_id: None, aspect: Some("correctness".into()) },
        category: "correctness".to_string(),
        severity: Severity::Medium,
        title: title.to_string(),
        message: message.to_string(),
        location: Location { path: "a.go".into(), start_line: 1, snippet: "x".into() },
    }
}

#[test]
fn counts_a_resolved_fp_when_the_candidate_no_longer_flags_it() {
    let known_verdicts = vec![known("Missing null check", "Parameter x is not null-checked before use", "fp")];
    let comparison = compare_replay(&known_verdicts, &[]);
    assert_eq!(comparison.fp_total, 1);
    assert_eq!(comparison.fp_resolved, 1);
}

#[test]
fn does_not_count_an_fp_as_resolved_if_the_candidate_still_flags_it() {
    let known_verdicts = vec![known("Missing null check", "Parameter x is not null-checked before use", "fp")];
    let candidate = vec![finding("Missing null check", "Parameter x is not null-checked before use")];
    let comparison = compare_replay(&known_verdicts, &candidate);
    assert_eq!(comparison.fp_resolved, 0);
}

#[test]
fn flags_a_lost_tp_when_the_candidate_stops_flagging_a_confirmed_true_positive() {
    let known_verdicts = vec![known("SQL injection risk", "raw query built from input", "tp")];
    let comparison = compare_replay(&known_verdicts, &[]);
    assert_eq!(comparison.tp_lost, vec!["SQL injection risk".to_string()]);
}

#[test]
fn does_not_flag_a_tp_as_lost_if_the_candidate_still_flags_it() {
    let known_verdicts = vec![known("SQL injection risk", "raw query built from input", "tp")];
    let candidate = vec![finding("SQL injection risk", "raw query built from input")];
    let comparison = compare_replay(&known_verdicts, &candidate);
    assert!(comparison.tp_lost.is_empty());
}

#[test]
fn passes_gate_when_most_fps_resolved_and_no_tps_lost() {
    let comparison = ReplayComparison { fp_total: 10, fp_resolved: 8, tp_total: 5, tp_lost: vec![] };
    assert!(comparison.passes_gate());
}

#[test]
fn fails_gate_on_any_lost_tp_regardless_of_fp_resolution_rate() {
    let comparison = ReplayComparison { fp_total: 10, fp_resolved: 10, tp_total: 5, tp_lost: vec!["real bug".to_string()] };
    assert!(!comparison.passes_gate(), "zero tolerance for a lost TP, per the plan");
}

#[test]
fn fails_gate_when_fp_resolution_rate_is_below_70_percent() {
    let comparison = ReplayComparison { fp_total: 10, fp_resolved: 6, tp_total: 0, tp_lost: vec![] };
    assert!(!comparison.passes_gate());
}

#[test]
fn fails_gate_when_there_are_no_fps_to_resolve_at_all() {
    let comparison = ReplayComparison { fp_total: 0, fp_resolved: 0, tp_total: 3, tp_lost: vec![] };
    assert!(!comparison.passes_gate(), "nothing to prove the candidate actually helps");
}

#[test]
fn a_lost_true_positive_fails_the_gate_whatever_the_totals_say() {
    let comparison = ReplayComparison { fp_total: 10, fp_resolved: 10, tp_total: 0, tp_lost: vec!["real bug".to_string()] };
    assert!(!comparison.passes_gate());
    assert!(ReplayComparison { fp_total: 10, fp_resolved: 7, tp_total: 0, tp_lost: vec![] }.passes_gate());
}

#[test]
fn stored_verdicts_count_in_a_replay() {
    let mut store = HistoryStore::open_in_memory();
    let reported = |id: &str, fingerprint: &str, title: &str, message: &str| Finding { id: id.to_string(), fingerprint: fingerprint.to_string(), ..finding(title, message) };
    store.record_run(&ReviewReport {
        run_id: "run-1".into(),
        created_at: "2026-07-12T00:00:00Z".into(),
        findings: vec![
            reported("f", "fp-f", "Missing null check", "Parameter x is not null-checked before use"),
            reported("g", "fp-g", "SQL injection risk", "raw query built from input"),
        ],
    });
    let noisy = store.find_finding_by_id("f").unwrap();
    store.record_feedback("f", &noisy, FeedbackVerdict::FalsePositive, None, "2026-07-13T00:00:00Z");
    let real = store.find_finding_by_id("g").unwrap();
    store.record_feedback("g", &real, FeedbackVerdict::TruePositive, None, "2026-07-13T00:00:00Z");
    let known_verdicts = store.known_verdicts_for_run("run-1");
    let silent = compare_replay(&known_verdicts, &[]);
    assert_eq!((silent.fp_total, silent.fp_resolved, silent.tp_total), (1, 1, 1));
    assert_eq!(silent.tp_lost, vec!["SQL injection risk".to_string()]);
    let better = compare_replay(&known_verdicts, &[finding("SQL injection risk", "raw query built from input")]);
    assert!(better.passes_gate());
    assert_eq!(compare_replay(&vec![known("t", "m", "other")], &[]).fp_total, 0);
}
