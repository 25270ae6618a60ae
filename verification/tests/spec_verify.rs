//! Checking a change against its acceptance criteria.

use std::cell::RefCell;

use autoreview::agents::{AgentBackend, AgentError, InvokeRequest, InvokeResult, Usage};
use autoreview::schema::{AcceptanceSpec, CriterionResult, CriterionVerdict};
use autoreview::spec_verify::run_spec_verify;
use serde_json::Value;

fn make_spec(criteria: Vec<&str>) -> AcceptanceSpec {
    AcceptanceSpec { title: "Add rate limiting".to_string(), intent: "Cap per-user request rate".to_string(), criteria: criteria.into_iter().map(str::to_string).collect() }
}

fn criterion_results(block: &str) -> Option<Vec<CriterionResult>> {
    let items: Vec<Value> = serde_json::from_str(block).ok()?;
    items
        .iter()
        .map(|item| {
            let verdict = match item["verdict"].as_str()? {
                "satisfied" => CriterionVerdict::Satisfied,
                "not-satisfied" => CriterionVerdict::NotSatisfied,
                "uncertain" => CriterionVerdict::Uncertain,
                _ => return None,
            };
            Some(CriterionResult { criterion: item["criterion"].as_str()?.to_string(), verdict, evidence: item["evidence"].as_str()?.to_string() })
        })
        .collect()
}

struct ScriptedBackend {
    responses: RefCell<Vec<Result<String, AgentError>>>,
}

impl AgentBackend for ScriptedBackend {
    fn invoke(&self, _req: &InvokeRequest) -> Result<InvokeResult, AgentError> {
        let mut responses = self.responses.borrow_mut();
        if responses.is_empty() {
            return Err(AgentError { message: "no more scripted responses".to_string() });
        }
        responses.remove(0).map(|text| InvokeResult { final_text: text, usage: Usage::default(), wall_ms: 5 })
    }
}

#[test]
fn parses_a_well_formed_batched_verdict_array() {
    let spec = make_spec(vec!["Returns 429 when exceeded", "Includes Retry-After header"]);
    let response = r#"```json
[
  {"criterion": "Returns 429 when exceeded", "verdict": "satisfied", "evidence": "the handler returns http.StatusTooManyRequests"},
  {"criterion": "Includes Retry-After header", "verdict": "not-satisfied", "evidence": "no Retry-After header is set anywhere in the diff"}
]
```"#;
    let backend = ScriptedBackend { responses: RefCell::new(vec![Ok(response.to_string())]) };
    let result = run_spec_verify(&backend, &criterion_results, &spec, "diff text", "haiku", 4, "/repo");
    assert_eq!(result.results.len(), 2);
    assert_eq!(result.results[0].verdict, CriterionVerdict::Satisfied);
    assert_eq!(result.results[1].verdict, CriterionVerdict::NotSatisfied);
}

#[test]
fn an_invoke_failure_marks_every_criterion_uncertain_not_silently_empty() {
    let spec = make_spec(vec!["A", "B", "C"]);
    let backend = ScriptedBackend { responses: RefCell::new(vec![]) };
    let result = run_spec_verify(&backend, &criterion_results, &spec, "diff text", "haiku", 4, "/repo");
    assert_eq!(result.results.len(), 3, "a failed call must still report one uncertain verdict per criterion, not zero");
    assert!(result.results.iter().all(|r| r.verdict == CriterionVerdict::Uncertain));
}

#[test]
fn a_malformed_response_marks_every_criterion_uncertain() {
    let spec = make_spec(vec!["A", "B"]);
    let backend = ScriptedBackend { responses: RefCell::new(vec![Ok("no json here".to_string())]) };
    let result = run_spec_verify(&backend, &criterion_results, &spec, "diff text", "haiku", 4, "/repo");
    assert_eq!(result.results.len(), 2);
    assert!(result.results.iter().all(|r| r.verdict == CriterionVerdict::Uncertain));
}

#[test]
fn a_response_with_the_wrong_number_of_verdicts_falls_back_to_uncertain() {
    let spec = make_spec(vec!["A", "B"]);
    let response = r#"```json
[{"criterion": "A", "verdict": "satisfied", "evidence": "yes"}]
```"#;
    let backend = ScriptedBackend { responses: RefCell::new(vec![Ok(response.to_string())]) };
    let result = run_spec_verify(&backend, &criterion_results, &spec, "diff text", "haiku", 4, "/repo");
    assert_eq!(result.results.len(), 2);
    assert!(result.results.iter().all(|r| r.verdict == CriterionVerdict::Uncertain));
}
