//! Mining calls that an agent says come in pairs.

use std::cell::RefCell;

use autoreview::agents::{AgentBackend, AgentError, InvokeRequest, InvokeResult, Usage};
use autoreview::rule_factory::mine_from_code::SourceFile;
use autoreview::rule_factory::mine_from_llm_patterns::{
    mine_from_llm_patterns, propose_conventions_via_llm, select_representative_files, verify_proposed_conventions,
    LlmProposedConvention, SizedFile,
};
use serde_json::Value;

struct ScriptedBackend {
    responses: RefCell<Vec<Result<String, AgentError>>>,
}

impl AgentBackend for ScriptedBackend {
    fn invoke(&self, _req: &InvokeRequest) -> Result<InvokeResult, AgentError> {
        let mut responses = self.responses.borrow_mut();
        if responses.is_empty() {
            return Err(AgentError { message: "no more scripted responses".to_string() });
        }
        responses.remove(0).map(|text| InvokeResult { final_text: text, usage: Usage::default(), wall_ms: 5 })
    }
}

fn write(files: &mut Vec<SourceFile>, path: &str, content: &str) {
    files.push(SourceFile { path: path.to_string(), content: content.to_string() });
}

fn parse_llm_proposals(block: &str) -> Option<Vec<LlmProposedConvention>> {
    let items: Vec<Value> = serde_json::from_str(block.trim()).ok()?;
    items
        .iter()
        .map(|item| {
            Some(LlmProposedConvention {
                call_a: item["call_a"].as_str()?.to_string(),
                call_b: item["call_b"].as_str()?.to_string(),
                rationale: item["rationale"].as_str()?.to_string(),
            })
        })
        .collect()
}

#[test]
fn parses_a_real_shaped_llm_proposal_block() {
    let block = r#"[{"call_a": "Lock", "call_b": "Unlock", "rationale": "mutex critical section"}]"#;
    let proposals = parse_llm_proposals(block).unwrap();
    assert_eq!(proposals, vec![LlmProposedConvention { call_a: "Lock".to_string(), call_b: "Unlock".to_string(), rationale: "mutex critical section".to_string() }]);
}

#[test]
fn parses_an_empty_proposal_array() {
    assert!(parse_llm_proposals("[]").unwrap().is_empty());
}

#[test]
fn errors_clearly_on_malformed_json() {
    assert!(parse_llm_proposals("not json").is_none());
}

#[test]
fn propose_conventions_extracts_a_fenced_block_from_a_real_backend_response() {
    let mut files: Vec<SourceFile> = Vec::new();
    write(&mut files, "main.go", "package main\n\nfunc f() {\n\tmu.Lock()\n\tmu.Unlock()\n}\n");
    let backend = ScriptedBackend { responses: RefCell::new(vec![Ok("```json\n[{\"call_a\": \"Lock\", \"call_b\": \"Unlock\", \"rationale\": \"mutex\"}]\n```".to_string())]) };
    let proposals = propose_conventions_via_llm(&backend, &parse_llm_proposals, &files, "cheap-model", 2, "/repo");
    assert_eq!(proposals, vec![LlmProposedConvention { call_a: "Lock".to_string(), call_b: "Unlock".to_string(), rationale: "mutex".to_string() }]);
}

#[test]
fn propose_conventions_fails_soft_on_a_broken_invocation() {
    let mut files: Vec<SourceFile> = Vec::new();
    write(&mut files, "main.go", "package main\n\nfunc f() {}\n");
    let backend = ScriptedBackend { responses: RefCell::new(vec![]) };
    assert!(propose_conventions_via_llm(&backend, &parse_llm_proposals, &files, "cheap-model", 2, "/repo").is_empty());
}

#[test]
fn verify_proposed_conventions_drops_a_fabricated_pair_and_keeps_a_real_one() {
    let mut files: Vec<SourceFile> = Vec::new();
    for i in 0..5 {
        write(&mut files, &format!("f{i}.go"), &format!("package main\n\nfunc f{i}() {{\n\tmu.Lock()\n\tdoWork()\n\tmu.Unlock()\n}}\n"));
    }
    let proposals = vec![
        LlmProposedConvention { call_a: "Lock".to_string(), call_b: "Unlock".to_string(), rationale: "real".to_string() },
        LlmProposedConvention { call_a: "Lock".to_string(), call_b: "TotallyFabricated".to_string(), rationale: "hallucinated".to_string() },
    ];
    let verified = verify_proposed_conventions(&files, &proposals, 3, 900_000);
    assert_eq!(verified.len(), 1, "got: {verified:#?}");
    assert_eq!(verified[0].call_b, "Unlock");
}

#[test]
fn mine_from_llm_patterns_reports_both_proposed_and_survived_counts() {
    let mut files: Vec<SourceFile> = Vec::new();
    for i in 0..5 {
        write(&mut files, &format!("f{i}.go"), &format!("package main\n\nfunc f{i}() {{\n\tmu.Lock()\n\tdoWork()\n\tmu.Unlock()\n}}\n"));
    }
    let backend = ScriptedBackend { responses: RefCell::new(vec![Ok("```json\n[{\"call_a\": \"Lock\", \"call_b\": \"Unlock\", \"rationale\": \"real\"}, {\"call_a\": \"Lock\", \"call_b\": \"Fabricated\", \"rationale\": \"hallucinated\"}]\n```".to_string())]) };
    let (seeds, proposed_count) = mine_from_llm_patterns(&backend, &parse_llm_proposals, &files, &files, "cheap-model", 2, "/repo", 3, 900_000);
    assert_eq!(proposed_count, 2);
    assert_eq!(seeds.len(), 1, "got: {seeds:#?}");
    assert_eq!(seeds[0].rule_id_or_aspect, "llm-proposed-call-pair");
    assert_eq!(seeds[0].distinct_run_count, 5);
}

#[test]
fn select_representative_files_ranks_a_real_go_repo_by_package_fan_in() {
    let file = |path: &str, package: &str, size: u64, fan_in: usize| SizedFile { path: path.to_string(), package: package.to_string(), size, fan_in };
    let files = vec![
        file("hub/hub.go", "example.com/app/hub", 28, 2),
        file("a/a.go", "example.com/app/a", 72, 0),
        file("b/b.go", "example.com/app/b", 72, 0),
        file("leaf/leaf.go", "example.com/app/leaf", 28, 0),
    ];
    let files = select_representative_files(&vec![files], &vec![], 1);
    assert_eq!(files, vec!["hub/hub.go".to_string()], "got: {files:#?}");
}
