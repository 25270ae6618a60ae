//! Calls on values that may be null.

use autoreview::dataflow::cfg::{Cfg, Stmt};
use autoreview::dataflow::lower::{java, kotlin};
use autoreview::dataflow::rules::java_kotlin_npe_risk::{check, compute_summary};
use autoreview::dataflow::summaries::Summaries;
use autoreview::langsupport::{parse_source, Language};
use autoreview::syntax::SyntaxNode;

fn find<'a>(node: &'a SyntaxNode, kind: &str, name: &str) -> Option<&'a SyntaxNode> {
    if node.kind == kind && node.child_by_role("name").is_some_and(|n| n.text == name) {
        return Some(node);
    }
    node.children.iter().find_map(|child| find(child, kind, name))
}

fn lower_java(source: &str, fn_name: &str) -> Cfg<Stmt> {
    let root = parse_source(Language::Java, source.as_bytes()).unwrap();
    java::lower_function(find(&root, "method_declaration", fn_name).unwrap_or_else(|| panic!("no method named {fn_name} found")))
}

fn lower_kotlin(source: &str, fn_name: &str) -> Cfg<Stmt> {
    let root = parse_source(Language::Kotlin, source.as_bytes()).unwrap();
    kotlin::lower_function(find(&root, "function_declaration", fn_name).unwrap_or_else(|| panic!("no function named {fn_name} found")))
}

#[test]
fn java_flags_a_direct_null_assignment_dereferenced_without_a_check() {
    let src = "class C {\n    void f() {\n        Object e = null;\n        e.toString();\n    }\n}\n";
    let cfg = lower_java(src, "f");
    let hits = check(&cfg, &Summaries::new(), &[]);
    assert_eq!(hits.len(), 1, "got: {hits:#?}");
    assert_eq!(hits[0].var, "e");
    assert_eq!(hits[0].call_name, "e.toString");
}

#[test]
fn java_does_not_flag_a_guarded_dereference() {
    let src = "class C {\n    void f() {\n        Object e = null;\n        if (e != null) {\n            e.toString();\n        }\n    }\n}\n";
    let cfg = lower_java(src, "f");
    let hits = check(&cfg, &Summaries::new(), &[]);
    assert!(hits.is_empty(), "got: {hits:#?}");
}

#[test]
fn java_flags_the_interprocedural_case_a_risky_helper_dereferenced() {
    let src = "class C {\n    Object helper() {\n        Object e = null;\n        return e;\n    }\n    void f() {\n        Object e = helper();\n        e.toString();\n    }\n}\n";
    let helper_cfg = lower_java(src, "helper");
    assert!(compute_summary(&helper_cfg), "helper's own summary should be risky");

    let mut summaries = Summaries::new();
    summaries.insert("helper".to_string(), true);
    let f_cfg = lower_java(src, "f");
    let hits = check(&f_cfg, &summaries, &[]);
    assert_eq!(hits.len(), 1, "got: {hits:#?} — same-function heuristic structurally couldn't see this");
    assert_eq!(hits[0].var, "e");
}

#[test]
fn java_does_not_flag_an_unresolved_helper_call() {
    let src = "class C {\n    void f() {\n        Object e = helper();\n        e.toString();\n    }\n}\n";
    let cfg = lower_java(src, "f");
    let hits = check(&cfg, &Summaries::new(), &[]);
    assert!(hits.is_empty(), "got: {hits:#?}");
}

#[test]
fn java_does_not_flag_a_helper_whose_own_summary_is_safe() {
    let src = "class C {\n    Object helper() {\n        return new Object();\n    }\n    void f() {\n        Object e = helper();\n        e.toString();\n    }\n}\n";
    let mut summaries = Summaries::new();
    summaries.insert("helper".to_string(), false);
    let f_cfg = lower_java(src, "f");
    let hits = check(&f_cfg, &summaries, &[]);
    assert!(hits.is_empty(), "got: {hits:#?}");
}

#[test]
fn kotlin_flags_a_direct_null_assignment_dereferenced_without_a_check() {
    let src = "class C {\n    fun f() {\n        val e: String? = null\n        e.toString()\n    }\n}\n";
    let cfg = lower_kotlin(src, "f");
    let hits = check(&cfg, &Summaries::new(), &[]);
    assert_eq!(hits.len(), 1, "got: {hits:#?}");
    assert_eq!(hits[0].var, "e");
    assert_eq!(hits[0].call_name, "e.toString");
}

#[test]
fn kotlin_does_not_flag_a_guarded_dereference() {
    let src = "class C {\n    fun f() {\n        val e: String? = null\n        if (e != null) {\n            e.toString()\n        }\n    }\n}\n";
    let cfg = lower_kotlin(src, "f");
    let hits = check(&cfg, &Summaries::new(), &[]);
    assert!(hits.is_empty(), "got: {hits:#?}");
}

#[test]
fn kotlin_flags_the_interprocedural_case_a_risky_helper_dereferenced() {
    let src = "class C {\n    fun helper(): String? {\n        val e: String? = null\n        return e\n    }\n    fun f() {\n        val e = helper()\n        e.toString()\n    }\n}\n";
    let helper_cfg = lower_kotlin(src, "helper");
    assert!(compute_summary(&helper_cfg), "helper's own summary should be risky");

    let mut summaries = Summaries::new();
    summaries.insert("helper".to_string(), true);
    let f_cfg = lower_kotlin(src, "f");
    let hits = check(&f_cfg, &summaries, &[]);
    assert_eq!(hits.len(), 1, "got: {hits:#?}");
    assert_eq!(hits[0].var, "e");
}

#[test]
fn null_safe_methods_excludes_a_matching_method_but_not_others() {
    let src = "class C {\n    fun f() {\n        val e: String? = null\n        e.toString()\n    }\n}\n";
    let cfg = lower_kotlin(src, "f");
    assert!(check(&cfg, &Summaries::new(), &["toString"]).is_empty(), "toString must be excluded when passed in null_safe_methods");
    assert_eq!(check(&cfg, &Summaries::new(), &[]).len(), 1, "toString must still be flagged when null_safe_methods is empty");

    let src2 = "class C {\n    fun f() {\n        val e: String? = null\n        e.length()\n    }\n}\n";
    let cfg2 = lower_kotlin(src2, "f");
    assert_eq!(check(&cfg2, &Summaries::new(), &["toString"]).len(), 1, "a different method name must not be excluded by an unrelated entry");
}

#[test]
fn an_early_return_on_null_clears_the_variable() {
    let src = "class C {\n void f() {\n  Object e = helper();\n  if (e == null) {\n   return;\n  }\n  e.toString();\n }\n}\n";
    let mut summaries = Summaries::new();
    summaries.insert("helper".to_string(), true);
    let hits = check(&lower_java(src, "f"), &summaries, &[]);
    assert!(hits.is_empty(), "got: {hits:#?}");
    let src = "class C {\n    fun f() {\n        val e = helper()\n        if (e == null) {\n            return\n        }\n        e.toString()\n    }\n}\n";
    let hits = check(&lower_kotlin(src, "f"), &summaries, &[]);
    assert!(hits.is_empty(), "got: {hits:#?}");
}

#[test]
fn a_null_branch_that_falls_through_clears_nothing() {
    let src = "class C {\n void f() {\n  Object e = helper();\n  if (e == null) {\n   log();\n  }\n  e.toString();\n }\n}\n";
    let mut summaries = Summaries::new();
    summaries.insert("helper".to_string(), true);
    let hits = check(&lower_java(src, "f"), &summaries, &[]);
    assert_eq!(hits.len(), 1, "got: {hits:#?}");
}

#[test]
fn more_summaries_find_no_less() {
    let src = "class C {\n void f() {\n  Object a = g();\n  Object b = h();\n  a.toString();\n  b.toString();\n }\n}\n";
    let cfg = lower_java(src, "f");
    let mut summaries = Summaries::new();
    assert_eq!(check(&cfg, &summaries, &[]).len(), 0);
    summaries.insert("g".to_string(), true);
    assert_eq!(check(&cfg, &summaries, &[]).len(), 1);
    summaries.insert("h".to_string(), true);
    assert_eq!(check(&cfg, &summaries, &[]).len(), 2);
}
