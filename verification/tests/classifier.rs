//! Asking an agent about a tier.

use std::cell::RefCell;

use autoreview::agents::{AgentBackend, AgentError, InvokeRequest, InvokeResult, Usage};
use autoreview::schema::Tier;
use autoreview::triage::classifier::classify_ambiguous_tier;
use autoreview::triage::signals::{DiffFacts, FileChange, LanguageCount};
use serde_json::Value;

fn make_facts() -> DiffFacts {
    DiffFacts {
        repo_root: "/repo".into(),
        base_ref: "main~1".into(),
        head_ref: "main".into(),
        files: vec![FileChange { path: "src/main.go".into(), additions: 5, deletions: 0 }],
        languages: vec![LanguageCount { language: "go".to_string(), files: 1 }],
        sensitive_path_hit: false,
        sensitive_paths: vec![],
        dependency_change: false,
        ci_or_infra_change: false,
        tests_touched: false,
        source_touched_without_tests: true,
        added_branch_keywords: 0,
    }
}

fn said_tier(block: &str) -> Option<String> {
    let value: Value = serde_json::from_str(block).ok()?;
    value["tier"].as_str().map(str::to_string)
}

struct ScriptedBackend {
    responses: RefCell<Vec<Result<String, AgentError>>>,
}

impl AgentBackend for ScriptedBackend {
    fn invoke(&self, _req: &InvokeRequest) -> Result<InvokeResult, AgentError> {
        let mut responses = self.responses.borrow_mut();
        if responses.is_empty() {
            return Err(AgentError { message: "no more scripted responses".to_string() });
        }
        responses.remove(0).map(|text| InvokeResult { final_text: text, usage: Usage::default(), wall_ms: 5 })
    }
}

#[test]
fn picks_the_classified_tier_when_it_is_one_of_the_two_candidates() {
    let backend = ScriptedBackend { responses: RefCell::new(vec![Ok("```json\n{\"tier\": \"standard\"}\n```".to_string())]) };
    let tier = classify_ambiguous_tier(&backend, &said_tier, &make_facts(), 22_000_000, Tier::Quick, Tier::Standard, "haiku", "/repo");
    assert_eq!(tier, Some(Tier::Standard));
}

#[test]
fn fails_soft_to_none_on_invoke_error() {
    let backend = ScriptedBackend { responses: RefCell::new(vec![Err(AgentError { message: "process failed".to_string() })]) };
    let tier = classify_ambiguous_tier(&backend, &said_tier, &make_facts(), 22_000_000, Tier::Quick, Tier::Standard, "haiku", "/repo");
    assert_eq!(tier, None);
}

#[test]
fn fails_soft_to_none_on_malformed_response() {
    let backend = ScriptedBackend { responses: RefCell::new(vec![Ok("not json at all".to_string())]) };
    let tier = classify_ambiguous_tier(&backend, &said_tier, &make_facts(), 22_000_000, Tier::Quick, Tier::Standard, "haiku", "/repo");
    assert_eq!(tier, None);
}

#[test]
fn rejects_a_tier_outside_the_two_candidates_asked_about() {
    let backend = ScriptedBackend { responses: RefCell::new(vec![Ok("```json\n{\"tier\": \"deep\"}\n```".to_string())]) };
    let tier = classify_ambiguous_tier(&backend, &said_tier, &make_facts(), 22_000_000, Tier::Quick, Tier::Standard, "haiku", "/repo");
    assert_eq!(tier, None);
}
