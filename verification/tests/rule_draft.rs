//! Drafting rules with an agent.

use std::cell::RefCell;

use autoreview::agents::{AgentBackend, AgentError, InvokeRequest, InvokeResult, Usage};
use autoreview::rule_factory::draft::{draft_candidate, DraftOutcome};
use autoreview::rule_factory::mine::{CandidateSeed, RepresentativeSnippet};

fn make_seed() -> CandidateSeed {
    CandidateSeed {
        cluster_id: "abc123".to_string(),
        category: "correctness".to_string(),
        rule_id_or_aspect: "correctness-specialist".to_string(),
        member_fingerprints: vec!["a".to_string(), "b".to_string(), "c".to_string()],
        distinct_run_count: 3,
        representative_snippets: vec![RepresentativeSnippet { fingerprint: "a".to_string(), title: "Missing null check".to_string(), message: "Parameter x is not null-checked".to_string() }],
    }
}

struct ScriptedBackend {
    responses: RefCell<Vec<&'static str>>,
}

impl AgentBackend for ScriptedBackend {
    fn invoke(&self, _req: &InvokeRequest) -> Result<InvokeResult, AgentError> {
        let mut responses = self.responses.borrow_mut();
        if responses.is_empty() {
            return Err(AgentError { message: "no more scripted responses".to_string() });
        }
        let text = responses.remove(0);
        Ok(InvokeResult { final_text: text.to_string(), usage: Usage::default(), wall_ms: 1 })
    }
}

const YAML_A: &str = "```yaml\nid: go-example\nlanguage: Go\ncategory: correctness\nrule:\n  pattern: foo($X)\n```";
const YAML_A_REWRAPPED: &str = "```yaml\n  id: go-example\n  language: Go\n  category: correctness\n  rule:\n    pattern: foo($X)\n```";
const YAML_B: &str = "```yaml\nid: go-other\nlanguage: Go\ncategory: correctness\nrule:\n  pattern: bar($X)\n```";
const INEXPRESSIBLE: &str = "```text\nINEXPRESSIBLE: needs cross-file type information\n```";

#[test]
fn drafts_a_rule_when_a_majority_of_attempts_agree() {
    let backend = ScriptedBackend { responses: RefCell::new(vec![YAML_A, YAML_A_REWRAPPED, YAML_A, YAML_B, INEXPRESSIBLE]) };
    let (outcome, _usage) = draft_candidate(&backend, &make_seed(), "cheap-model", 4, "/tmp");
    match outcome {
        DraftOutcome::Drafted { agreement_count, .. } => assert_eq!(agreement_count, 3),
        other => panic!("expected Drafted, got {other:?}"),
    }
}

#[test]
fn marks_inexpressible_when_no_pattern_reaches_majority_agreement() {
    let backend = ScriptedBackend { responses: RefCell::new(vec![YAML_A, YAML_B, INEXPRESSIBLE, INEXPRESSIBLE, INEXPRESSIBLE]) };
    let (outcome, _usage) = draft_candidate(&backend, &make_seed(), "cheap-model", 4, "/tmp");
    assert!(matches!(outcome, DraftOutcome::Inexpressible { .. }));
}

#[test]
fn marks_inexpressible_when_attempts_are_split_with_no_majority() {
    let backend = ScriptedBackend { responses: RefCell::new(vec![YAML_A, YAML_B, YAML_A, YAML_B, INEXPRESSIBLE]) };
    let (outcome, _usage) = draft_candidate(&backend, &make_seed(), "cheap-model", 4, "/tmp");
    assert!(matches!(outcome, DraftOutcome::Inexpressible { .. }));
}

#[test]
fn failed_invocations_are_dropped_not_counted_either_way() {
    let backend = ScriptedBackend { responses: RefCell::new(vec![YAML_A, YAML_A, YAML_A]) };
    let (outcome, _usage) = draft_candidate(&backend, &make_seed(), "cheap-model", 4, "/tmp");
    match outcome {
        DraftOutcome::Drafted { agreement_count, .. } => assert_eq!(agreement_count, 3),
        other => panic!("expected Drafted, got {other:?}"),
    }
}
