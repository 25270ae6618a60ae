//! Checking findings before they are reported.

use std::cell::RefCell;

use autoreview::agents::{AgentBackend, AgentError, InvokeRequest, InvokeResult, Usage};
use autoreview::names::NameSet;
use autoreview::schema::{Finding, FindingSource, FindingSourceKind, Location, Severity, SuppressedReason};
use autoreview::verify::{run_verify_pass, select_for_verification, Verdict};
use serde_json::Value;

fn make_finding(id: &str, kind: FindingSourceKind, category: &str, severity: Severity) -> Finding {
    Finding {
        id: id.to_string(),
        fingerprint: id.to_string(),
        source: FindingSource { kind, tool: "agent-cli".into(), rule_id: None, aspect: Some("security".into()) },
        category: category.to_string(),
        severity,
        title: "t".into(),
        message: "m".into(),
        location: Location { path: "a.ts".into(), start_line: 1, snippet: "x".into() },
    }
}

fn verdict(block: &str) -> Option<Verdict> {
    let value: Value = serde_json::from_str(block).ok()?;
    Some(Verdict { keep: value["keep"].as_bool()?, reason: value["reason"].as_str()?.to_string() })
}

struct ScriptedBackend {
    responses: RefCell<Vec<Result<String, AgentError>>>,
}

impl AgentBackend for ScriptedBackend {
    fn invoke(&self, _req: &InvokeRequest) -> Result<InvokeResult, AgentError> {
        let mut responses = self.responses.borrow_mut();
        if responses.is_empty() {
            return Err(AgentError { message: "no more scripted responses".to_string() });
        }
        responses.remove(0).map(|text| InvokeResult { final_text: text, usage: Usage::default(), wall_ms: 5 })
    }
}

#[test]
fn selects_high_and_blocker_agent_findings_regardless_of_category() {
    let findings = vec![
        make_finding("a", FindingSourceKind::Agent, "correctness", Severity::High),
        make_finding("b", FindingSourceKind::Agent, "correctness", Severity::Blocker),
        make_finding("c", FindingSourceKind::Agent, "correctness", Severity::Medium),
    ];
    let selected: Vec<&str> = select_for_verification(&findings, &vec![], &NameSet::new()).into_iter().map(|f| f.id.as_str()).collect();
    assert_eq!(selected, vec!["a", "b"]);
}

#[test]
fn selects_analyzer_findings_only_from_noisy_categories() {
    let findings = vec![
        make_finding("a", FindingSourceKind::Analyzer, "style", Severity::Low),
        make_finding("b", FindingSourceKind::Analyzer, "correctness", Severity::Low),
    ];
    let selected: Vec<&str> =
        select_for_verification(&findings, &vec!["style".to_string()], &NameSet::new()).into_iter().map(|f| f.id.as_str()).collect();
    assert_eq!(selected, vec!["a"]);
}

#[test]
fn selects_a_finding_whose_rule_is_marked_semantic_regardless_of_category_or_severity() {
    let findings = vec![
        make_finding("a", FindingSourceKind::Analyzer, "performance", Severity::Low),
        make_finding("b", FindingSourceKind::Analyzer, "performance", Severity::Low),
    ];
    let mut findings = findings;
    findings[0].source.rule_id = Some("go-nested-loop-linear-search".to_string());
    let mut semantic = NameSet::new();
    semantic.insert("go-nested-loop-linear-search");
    let selected: Vec<&str> = select_for_verification(&findings, &vec![], &semantic).into_iter().map(|f| f.id.as_str()).collect();
    assert_eq!(selected, vec!["a"]);
}

#[test]
fn a_refute_verdict_suppresses_the_finding() {
    let backend = ScriptedBackend { responses: RefCell::new(vec![Ok("```json\n{\"keep\": false, \"reason\": \"snippet doesn't match the diff\"}\n```".to_string())]) };
    let findings = vec![make_finding("a", FindingSourceKind::Agent, "correctness", Severity::High)];
    let result = run_verify_pass(&backend, &verdict, findings, "diff text", "haiku", 2, "/repo", &vec![], &NameSet::new());
    assert!(result.kept.is_empty());
    assert_eq!(result.suppressed.len(), 1);
    assert!(matches!(result.suppressed[0].reason, SuppressedReason::Refuted));
    assert_eq!(result.checked, 1);
}

#[test]
fn a_keep_verdict_leaves_the_finding_in_place() {
    let backend = ScriptedBackend { responses: RefCell::new(vec![Ok("```json\n{\"keep\": true, \"reason\": \"confirmed\"}\n```".to_string())]) };
    let findings = vec![make_finding("a", FindingSourceKind::Agent, "correctness", Severity::High)];
    let result = run_verify_pass(&backend, &verdict, findings, "diff text", "haiku", 2, "/repo", &vec![], &NameSet::new());
    assert_eq!(result.kept.len(), 1);
    assert!(result.suppressed.is_empty());
}

#[test]
fn findings_outside_the_selection_are_never_invoked_on() {
    let backend = ScriptedBackend { responses: RefCell::new(vec![]) };
    let findings = vec![make_finding("a", FindingSourceKind::Agent, "correctness", Severity::Medium)];
    let result = run_verify_pass(&backend, &verdict, findings, "diff text", "haiku", 2, "/repo", &vec![], &NameSet::new());
    assert_eq!(result.kept.len(), 1);
    assert_eq!(result.checked, 0);
}

#[test]
fn an_invoke_failure_fails_open_and_keeps_the_finding() {
    let backend = ScriptedBackend { responses: RefCell::new(vec![]) };
    let findings = vec![make_finding("a", FindingSourceKind::Agent, "correctness", Severity::Blocker)];
    let result = run_verify_pass(&backend, &verdict, findings, "diff text", "haiku", 2, "/repo", &vec![], &NameSet::new());
    assert_eq!(result.kept.len(), 1);
    assert!(result.suppressed.is_empty());
}

#[test]
fn a_malformed_verdict_response_fails_open_and_keeps_the_finding() {
    let backend = ScriptedBackend { responses: RefCell::new(vec![Ok("no json here".to_string())]) };
    let findings = vec![make_finding("a", FindingSourceKind::Agent, "correctness", Severity::Blocker)];
    let result = run_verify_pass(&backend, &verdict, findings, "diff text", "haiku", 2, "/repo", &vec![], &NameSet::new());
    assert_eq!(result.kept.len(), 1);
    assert!(result.suppressed.is_empty());
}
