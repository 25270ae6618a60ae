//! Agents and their replies.

use autoreview::agents::{extract_last_fenced_block, AgentBackend, AgentError, InvokeRequest, InvokeResult, Usage};
use autoreview::rule_factory::draft::{best_agreement, outcome_of_replies, DraftOutcome};
use autoreview::skill_evolution::mine::{draft_negative_guidance, NegativeGuidanceSeed};
use autoreview::spec_verify::draft::{draft_spec, DraftError};
use autoreview::verify::{judge, Verdict};

struct SilentBackend;

impl AgentBackend for SilentBackend {
    fn invoke(&self, _req: &InvokeRequest) -> Result<InvokeResult, AgentError> {
        Err(AgentError { message: "spawn failed".to_string() })
    }
}

struct ProseBackend;

impl AgentBackend for ProseBackend {
    fn invoke(&self, _req: &InvokeRequest) -> Result<InvokeResult, AgentError> {
        Ok(reply("no block here", 1))
    }
}

fn reply(text: &str, tokens: u64) -> InvokeResult {
    InvokeResult { final_text: text.to_string(), usage: Usage { input_tokens: tokens, output_tokens: 2 * tokens }, wall_ms: 5 }
}

fn attempts(yaml: &[&str]) -> Vec<String> {
    yaml.iter().map(|s| s.to_string()).collect()
}

#[test]
fn the_last_fenced_block_counts() {
    assert_eq!(extract_last_fenced_block("```json\n1\n```\ntext\n```json\n2\n```"), Some("2\n"));
    assert_eq!(extract_last_fenced_block("```\n```"), Some(""));
    assert_eq!(extract_last_fenced_block("```json"), None);
    assert_eq!(extract_last_fenced_block("``` x ```"), None);
    assert_eq!(extract_last_fenced_block("no block"), None);
}

#[test]
fn usage_adds_up() {
    let mut usage = Usage { input_tokens: 1, output_tokens: 2 };
    usage.add(&Usage { input_tokens: 10, output_tokens: 20 });
    assert_eq!((usage.input_tokens, usage.output_tokens), (11, 22));
    usage.add(&Usage { input_tokens: u64::MAX, output_tokens: 0 });
    assert_eq!(usage.input_tokens, u64::MAX);
}

#[test]
fn three_drafts_make_a_rule() {
    match best_agreement(&attempts(&["id: a", "id:  a", "id: b", "id: a"]), 1) {
        DraftOutcome::Drafted { agreement_count, .. } => assert_eq!(agreement_count, 3),
        DraftOutcome::Inexpressible { rationale } => panic!("{rationale}"),
    }
    match best_agreement(&attempts(&["id: a", "id: a", "id: b"]), 0) {
        DraftOutcome::Inexpressible { rationale } => {
            assert_eq!(rationale, "fewer than 3 of 5 drafting attempts agreed on a single pattern")
        }
        DraftOutcome::Drafted { .. } => panic!("two drafts do not agree enough"),
    }
}

#[test]
fn the_usage_of_every_reply_is_counted() {
    let replies = vec![
        Ok(reply("```text\nINEXPRESSIBLE: types\n```", 1)),
        Ok(reply("```text\nINEXPRESSIBLE: types\n```", 2)),
        Ok(reply("prose", 4)),
        Err(AgentError { message: "timeout".to_string() }),
        Ok(reply("```text\nINEXPRESSIBLE: flow\n```", 8)),
    ];
    let (outcome, usage) = outcome_of_replies(&replies);
    assert_eq!((usage.input_tokens, usage.output_tokens), (15, 30));
    match outcome {
        DraftOutcome::Inexpressible { rationale } => {
            assert_eq!(rationale, "a majority of drafting attempts judged this cluster inexpressible as a syntactic rule")
        }
        DraftOutcome::Drafted { .. } => panic!("nothing was drafted"),
    }
}

#[test]
fn drafting_a_spec_says_what_went_wrong() {
    match draft_spec(&SilentBackend, "m", "diff", "/repo") {
        Err(DraftError::Invoke(e)) => assert_eq!(e.message, "spawn failed"),
        _ => panic!("the backend fails"),
    }
    let refused = draft_spec(&ProseBackend, "m", "diff", "/repo").err().unwrap();
    assert!(matches!(refused, DraftError::NoFencedBlock));
    assert_eq!(refused.message(), "agent response had no fenced block");
}

#[test]
fn a_judge_that_does_not_answer_keeps_the_finding() {
    let silent = judge(Err(AgentError { message: "timeout".to_string() }), None);
    assert!(silent.keep);
    let unreadable = judge(Ok(reply("prose", 3)), None);
    assert!(unreadable.keep);
    let refuted = judge(Ok(reply("x", 3)), Some(Verdict { keep: false, reason: "handled above".to_string() }));
    assert!(!refuted.keep);
    assert_eq!(refuted.reason, "handled above");
    assert_eq!(refuted.usage.input_tokens, 3);
}

struct FencedBackend;

impl AgentBackend for FencedBackend {
    fn invoke(&self, req: &InvokeRequest) -> Result<InvokeResult, AgentError> {
        assert!(req.prompt.contains("caller checks") && req.model == "m" && req.max_turns == 2);
        Ok(reply("Here it is:\n```text\n Do not flag X because Y. \n```", 6))
    }
}

fn guidance_seed() -> NegativeGuidanceSeed {
    NegativeGuidanceSeed {
        cluster_id: "c".to_string(),
        category: "correctness".to_string(),
        representative_title: "Missing null check".to_string(),
        representative_message: "x is not checked".to_string(),
        notes: vec!["caller checks".to_string()],
    }
}

#[test]
fn guidance_is_the_line_of_the_fenced_block() {
    let (line, usage) = draft_negative_guidance(&FencedBackend, &guidance_seed(), "m", 2, "/repo");
    assert_eq!(line.as_deref(), Some("Do not flag X because Y."));
    assert_eq!((usage.input_tokens, usage.output_tokens), (6, 12));
    let (line, usage) = draft_negative_guidance(&SilentBackend, &guidance_seed(), "m", 2, "/repo");
    assert_eq!(line, None);
    assert_eq!(usage.input_tokens, 0);
    assert_eq!(draft_negative_guidance(&ProseBackend, &guidance_seed(), "m", 2, "/repo").0, None);
}
