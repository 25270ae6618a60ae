//! Nil pointers that are returned as errors.

use autoreview::dataflow::cfg::{Cfg, Stmt};
use autoreview::dataflow::lower::go::lower_function;
use autoreview::dataflow::rules::go_typed_nil_interface_return::{check, compute_summary};
use autoreview::dataflow::summaries::Summaries;
use autoreview::langsupport::{parse_source, Language};
use autoreview::syntax::SyntaxNode;

fn find<'a>(node: &'a SyntaxNode, kind: &str, name: &str) -> Option<&'a SyntaxNode> {
    if node.kind == kind && node.child_by_role("name").is_some_and(|n| n.text == name) {
        return Some(node);
    }
    node.children.iter().find_map(|child| find(child, kind, name))
}

fn lower(source: &str, fn_name: &str) -> Cfg<Stmt> {
    let root = parse_source(Language::Go, source.as_bytes()).unwrap();
    lower_function(find(&root, "function_declaration", fn_name).unwrap_or_else(|| panic!("no function named {fn_name} found")))
}

#[test]
fn flags_the_same_function_case_a_local_nil_pointer_returned_as_error() {
    let src = "package p\nfunc do() error {\n\tvar e *myError\n\tif somethingBad {\n\t\te = &myError{}\n\t}\n\treturn e\n}\n";
    let cfg = lower(src, "do");
    let hits = check(&cfg, &Summaries::new());
    assert_eq!(hits.len(), 1, "got: {hits:#?}");
    assert_eq!(hits[0].var, "e");
}

#[test]
fn does_not_flag_the_guarded_nil_check_idiom() {
    let src = "package p\nfunc do() error {\n\tvar e *myError\n\tif somethingBad {\n\t\te = &myError{}\n\t}\n\tif e != nil {\n\t\treturn e\n\t}\n\treturn nil\n}\n";
    let cfg = lower(src, "do");
    let hits = check(&cfg, &Summaries::new());
    assert!(hits.is_empty(), "got: {hits:#?}");
}

#[test]
fn flags_the_interprocedural_case_a_risky_helper_returned_as_error() {
    let src = "package p\nfunc helper() *myError {\n\tvar e *myError\n\treturn e\n}\nfunc Do() error {\n\te := helper()\n\treturn e\n}\n";
    let helper_cfg = lower(src, "helper");
    assert!(compute_summary(&helper_cfg), "helper's own summary should be risky");

    let mut summaries = Summaries::new();
    summaries.insert("helper".to_string(), true);
    let do_cfg = lower(src, "Do");
    let hits = check(&do_cfg, &summaries);
    assert_eq!(hits.len(), 1, "got: {hits:#?} — same-function heuristic structurally couldn't see this");
    assert_eq!(hits[0].var, "e");
}

#[test]
fn does_not_flag_a_call_to_an_unresolved_unknown_function() {
    let src = "package p\nfunc Do() error {\n\te := helper()\n\treturn e\n}\n";
    let cfg = lower(src, "Do");
    let hits = check(&cfg, &Summaries::new());
    assert!(hits.is_empty(), "got: {hits:#?}");
}

#[test]
fn does_not_flag_a_helper_whose_own_summary_is_safe() {
    let src = "package p\nfunc helper() *myError {\n\treturn &myError{}\n}\nfunc Do() error {\n\te := helper()\n\treturn e\n}\n";
    let helper_cfg = lower(src, "helper");
    assert!(!compute_summary(&helper_cfg));

    let mut summaries = Summaries::new();
    summaries.insert("helper".to_string(), false);
    let do_cfg = lower(src, "Do");
    let hits = check(&do_cfg, &summaries);
    assert!(hits.is_empty(), "got: {hits:#?}");
}

#[test]
fn an_early_return_on_nil_clears_the_variable() {
    let src = "package p\nfunc do() error {\n\tvar e *myError\n\tif e == nil {\n\t\treturn nil\n\t}\n\treturn e\n}\n";
    let hits = check(&lower(src, "do"), &Summaries::new());
    assert!(hits.is_empty(), "got: {hits:#?}");
    let src = "package p\nfunc do() error {\n\tvar e *myError\n\tif e == nil {\n\t\treturn e\n\t} else {\n\t\treturn e\n\t}\n}\n";
    let hits = check(&lower(src, "do"), &Summaries::new());
    assert_eq!(hits.len(), 1, "got: {hits:#?}");
}
