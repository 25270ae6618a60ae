//! The event log.

use autoreview::schema::{Finding, FindingSource, FindingSourceKind, Location, ReviewReport, Severity};
use autoreview::storage::event_log::event_log_path;
use autoreview::storage::{events_from_report, feedback_event, FindingLookup};

fn make_report(findings: Vec<Finding>) -> ReviewReport {
    ReviewReport { run_id: "run-1".into(), created_at: "2026-07-12T00:00:00Z".into(), findings }
}

fn make_finding(fingerprint: &str, rule_id: Option<&str>, aspect: Option<&str>) -> Finding {
    Finding {
        id: format!("f-{fingerprint}"),
        fingerprint: fingerprint.to_string(),
        source: FindingSource { kind: FindingSourceKind::Analyzer, tool: "ast-grep".into(), rule_id: rule_id.map(String::from), aspect: aspect.map(String::from) },
        category: "correctness".into(),
        severity: Severity::Medium,
        title: "t".into(),
        message: "m".into(),
        location: Location { path: "a.go".into(), start_line: 1, snippet: "x".into() },
    }
}

#[test]
fn maps_findings_to_events_with_no_feedback_at_write_time() {
    let report = make_report(vec![make_finding("abc", Some("go-no-self-comparison"), None)]);
    let events = events_from_report(&report, "test-host");
    assert_eq!(events.len(), 1);
    assert_eq!(events[0].finding_fingerprint, "abc");
    assert_eq!(events[0].rule_id_or_aspect, "go-no-self-comparison");
    assert_eq!(events[0].severity, "medium");
    assert_eq!(events[0].run_id, "run-1");
    assert_eq!(events[0].host, "test-host");
    assert!(events[0].feedback.is_none());
}

#[test]
fn falls_back_to_aspect_then_tool_when_no_rule_id() {
    let report = make_report(vec![make_finding("agent-finding", None, Some("security"))]);
    let events = events_from_report(&report, "h");
    assert_eq!(events[0].rule_id_or_aspect, "security");
}

#[test]
fn different_hosts_on_the_same_date_get_separate_files() {
    let path_host1 = event_log_path("/history", "2026-07-12", "host1");
    let path_host2 = event_log_path("/history", "2026-07-12", "host2");
    assert_eq!(path_host1, "/history/events/2026-07-12-host1.jsonl");
    assert_ne!(path_host1, path_host2, "different hosts must never write to the same file — that's what makes team sync conflict-free");
}

#[test]
fn feedback_event_carries_the_looked_up_fields_and_the_verdict() {
    let lookup = FindingLookup { fingerprint: "abc".into(), category: "correctness".into(), severity: "medium".into(), rule_id_or_tool: "go-no-self-comparison".into(), title: "t".into(), message: "m".into() };
    let event = feedback_event(&lookup, "fp", "feedback", "host1", "2026-07-12T00:00:00Z");
    assert_eq!(event.finding_fingerprint, "abc");
    assert_eq!(event.category, "correctness");
    assert_eq!(event.rule_id_or_aspect, "go-no-self-comparison");
    assert_eq!(event.severity, "medium");
    assert_eq!(event.feedback.as_deref(), Some("fp"));
    assert_eq!(event.run_id, "feedback");
}
