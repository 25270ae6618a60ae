//! Drafting acceptance criteria with an agent.

use std::cell::RefCell;

use autoreview::agents::{AgentBackend, AgentError, InvokeRequest, InvokeResult, Usage};
use autoreview::spec_verify::draft::draft_spec;

struct ScriptedBackend {
    responses: RefCell<Vec<Result<String, AgentError>>>,
}

impl AgentBackend for ScriptedBackend {
    fn invoke(&self, _req: &InvokeRequest) -> Result<InvokeResult, AgentError> {
        let mut responses = self.responses.borrow_mut();
        if responses.is_empty() {
            return Err(AgentError { message: "no more scripted responses".to_string() });
        }
        responses.remove(0).map(|text| InvokeResult { final_text: text, usage: Usage::default(), wall_ms: 5 })
    }
}

#[test]
fn extracts_the_drafted_markdown_from_a_fenced_block() {
    let backend = ScriptedBackend {
        responses: RefCell::new(vec![Ok("Sure, here's a draft:\n```markdown\n# Add rate limiting\n\n## Intent\n\nCap per-user request rate.\n\n## Acceptance Criteria\n\n- Requests over the limit return 429\n```\n".to_string())]),
    };
    let drafted = draft_spec(&backend, "haiku", "diff --git a/x b/x\n", "/repo").unwrap();
    assert!(drafted.markdown.starts_with("# Add rate limiting"), "got: {}", drafted.markdown);
    assert!(drafted.markdown.contains("## Acceptance Criteria"), "got: {}", drafted.markdown);
}

#[test]
fn errors_clearly_when_the_response_has_no_fenced_block() {
    let backend = ScriptedBackend { responses: RefCell::new(vec![Ok("I couldn't draft one.".to_string())]) };
    let err = draft_spec(&backend, "haiku", "diff --git a/x b/x\n", "/repo").unwrap_err();
    assert!(err.message().contains("fenced block"), "got: {err:?}");
}

#[test]
fn propagates_an_invocation_failure() {
    let backend = ScriptedBackend { responses: RefCell::new(vec![Err(AgentError { message: "agent process failed to launch".to_string() })]) };
    let err = draft_spec(&backend, "haiku", "diff --git a/x b/x\n", "/repo").unwrap_err();
    assert!(err.message().contains("failed to launch"), "got: {err:?}");
}
