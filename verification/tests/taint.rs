//! Taint tracking.

use autoreview::dataflow::cfg::{Cfg, Stmt};
use autoreview::dataflow::lower::go::lower_function;
use autoreview::langsupport::{parse_source, Language};
use autoreview::dataflow::summaries::Summaries;
use autoreview::dataflow::taint::{
    check, check_with_summaries, compute_source_summary, NamePattern, TaintSink, TaintSpec,
};

fn spec() -> TaintSpec {
    TaintSpec {
        rule_id: "test-taint".to_string(),
        sources: vec![NamePattern::suffix("FormValue")],
        sinks: vec![TaintSink { call: NamePattern::suffix("exec.Command"), tainted_arg_positions: None }],
        sanitizers: vec![NamePattern::suffix("sanitize")],
    }
}

fn lower(source: &str) -> Cfg<Stmt> {
    let root = parse_source(Language::Go, source.as_bytes()).unwrap();
    let fn_node = root.children.iter().find(|n| n.named && n.kind == "function_declaration").expect("no function_declaration found");
    lower_function(fn_node)
}

#[test]
fn flags_a_source_reaching_a_sink_directly() {
    let cfg = lower("package p\nfunc f(r *Req) {\n\tcmd := r.FormValue(\"cmd\")\n\texec.Command(\"sh\", \"-c\", cmd)\n}\n");
    let hits = check(&spec(), &cfg);
    assert_eq!(hits.len(), 1, "got: {hits:#?}");
    assert_eq!(hits[0].tainted_arg, "cmd");
}

#[test]
fn flags_taint_propagated_through_an_intermediate_assignment() {
    let cfg = lower("package p\nfunc f(r *Req) {\n\tcmd := r.FormValue(\"cmd\")\n\tuserCmd := cmd\n\texec.Command(\"sh\", \"-c\", userCmd)\n}\n");
    let hits = check(&spec(), &cfg);
    assert_eq!(hits.len(), 1, "got: {hits:#?}");
}

#[test]
fn does_not_flag_an_untainted_argument() {
    let cfg = lower("package p\nfunc f() {\n\texec.Command(\"ls\", \"-la\")\n}\n");
    let hits = check(&spec(), &cfg);
    assert!(hits.is_empty(), "got: {hits:#?}");
}

#[test]
fn does_not_flag_after_the_sanitizer_wraps_the_value() {
    let cfg = lower("package p\nfunc f(r *Req) {\n\tcmd := r.FormValue(\"cmd\")\n\tclean := sanitize(cmd)\n\texec.Command(\"sh\", \"-c\", clean)\n}\n");
    let hits = check(&spec(), &cfg);
    assert!(hits.is_empty(), "got: {hits:#?}");
}

#[test]
fn flags_a_source_reaching_an_exec_cmd_struct_literals_path_field() {
    let mut spec = spec();
    spec.sinks.push(TaintSink { call: NamePattern::suffix("exec.Cmd{Path}"), tainted_arg_positions: None });
    let cfg = lower("package p\nfunc f(r *Req) {\n\tcmd := r.FormValue(\"cmd\")\n\tc := &exec.Cmd{Path: cmd}\n\t_ = c\n}\n");
    let hits = check(&spec, &cfg);
    assert_eq!(hits.len(), 1, "got: {hits:#?}");
    assert_eq!(hits[0].tainted_arg, "cmd");
    assert_eq!(hits[0].sink_call, "exec.Cmd{Path}");
}

#[test]
fn does_not_flag_an_untainted_exec_cmd_struct_literals_path_field() {
    let mut spec = spec();
    spec.sinks.push(TaintSink { call: NamePattern::suffix("exec.Cmd{Path}"), tainted_arg_positions: None });
    let cfg = lower("package p\nfunc f() {\n\tc := &exec.Cmd{Path: \"/bin/ls\"}\n\t_ = c\n}\n");
    let hits = check(&spec, &cfg);
    assert!(hits.is_empty(), "got: {hits:#?}");
}

#[test]
fn does_not_flag_a_call_matching_neither_source_nor_sink_pattern() {
    let cfg = lower("package p\nfunc f() {\n\tx := os.Getenv(\"PATH\")\n\texec.Command(\"echo\", x)\n}\n");
    let hits = check(&spec(), &cfg);
    assert!(hits.is_empty(), "got: {hits:#?}");
}

#[test]
fn compute_source_summary_is_true_when_a_source_reaches_the_return() {
    let cfg = lower("package p\nfunc getUserID(r *Req) string {\n\tid := r.FormValue(\"id\")\n\treturn id\n}\n");
    assert!(compute_source_summary(&spec(), &cfg));
}

#[test]
fn compute_source_summary_is_false_when_no_source_reaches_the_return() {
    let cfg = lower("package p\nfunc getUserID() string {\n\treturn \"anonymous\"\n}\n");
    assert!(!compute_source_summary(&spec(), &cfg));
}

#[test]
fn check_with_summaries_flags_a_niladic_call_to_a_summarized_source_wrapper() {
    let cfg = lower("package p\nfunc f() {\n\tid := getUserID()\n\texec.Command(\"sh\", \"-c\", id)\n}\n");
    let mut summaries = Summaries::new();
    summaries.insert("getUserID".to_string(), true);
    let hits = check_with_summaries(&spec(), &cfg, Some(&summaries));
    assert_eq!(hits.len(), 1, "got: {hits:#?}");
    assert_eq!(hits[0].tainted_arg, "id");
}

#[test]
fn check_without_summaries_does_not_flag_the_same_niladic_call() {
    let cfg = lower("package p\nfunc f() {\n\tid := getUserID()\n\texec.Command(\"sh\", \"-c\", id)\n}\n");
    let hits = check(&spec(), &cfg);
    assert!(hits.is_empty(), "got: {hits:#?}");
}

#[test]
fn check_with_summaries_does_not_flag_a_call_to_an_unsummarized_function() {
    let cfg = lower("package p\nfunc f() {\n\tid := getUserID()\n\texec.Command(\"sh\", \"-c\", id)\n}\n");
    let summaries = Summaries::new();
    let hits = check_with_summaries(&spec(), &cfg, Some(&summaries));
    assert!(hits.is_empty(), "got: {hits:#?} — an empty/missing summaries entry is an unknown boundary, never flagged");
}

#[test]
fn check_with_summaries_still_respects_a_sanitizer_after_a_summarized_source() {
    let cfg = lower("package p\nfunc f() {\n\tid := getUserID()\n\tclean := sanitize(id)\n\texec.Command(\"sh\", \"-c\", clean)\n}\n");
    let mut summaries = Summaries::new();
    summaries.insert("getUserID".to_string(), true);
    let hits = check_with_summaries(&spec(), &cfg, Some(&summaries));
    assert!(hits.is_empty(), "got: {hits:#?}");
}
