//! Loop variables that outlive their iteration.

use autoreview::dataflow::cfg::{Cfg, ClosureKind, Stmt};
use autoreview::dataflow::lower::go::lower_function;
use autoreview::dataflow::rules::go_loopvar::{check_address, check_capture};
use autoreview::langsupport::{parse_source, Language};

fn lower(source: &str) -> Cfg<Stmt> {
    let root = parse_source(Language::Go, source.as_bytes()).unwrap();
    let fn_node = root.children.iter().find(|n| n.named && n.kind == "function_declaration").expect("no function_declaration found");
    lower_function(fn_node)
}

#[test]
fn flags_a_goroutine_capturing_the_range_loop_variable() {
    let cfg = lower("package p\nfunc f(items []string) {\n\tfor _, item := range items {\n\t\tgo func() {\n\t\t\tprintln(item)\n\t\t}()\n\t}\n}\n");
    let hits = check_capture(&cfg);
    assert_eq!(hits.len(), 1, "got: {hits:#?}");
    assert_eq!(hits[0].var, "item");
    assert_eq!(hits[0].kind, ClosureKind::Goroutine);
}

#[test]
fn does_not_flag_a_shadowed_goroutine() {
    let cfg = lower("package p\nfunc f(items []string) {\n\tfor _, item := range items {\n\t\tgo func() {\n\t\t\titem := item\n\t\t\tprintln(item)\n\t\t}()\n\t}\n}\n");
    assert!(check_capture(&cfg).is_empty());
}

#[test]
fn does_not_flag_a_goroutine_passed_the_variable_as_a_parameter() {
    let cfg = lower("package p\nfunc f(items []string) {\n\tfor _, item := range items {\n\t\tgo func(x string) {\n\t\t\tprintln(x)\n\t\t}(item)\n\t}\n}\n");
    assert!(check_capture(&cfg).is_empty());
}

#[test]
fn does_not_flag_a_closure_outside_any_loop() {
    let cfg = lower("package p\nfunc f() {\n\tx := 1\n\tgo func() {\n\t\tprintln(x)\n\t}()\n}\n");
    assert!(check_capture(&cfg).is_empty());
}

#[test]
fn flags_a_deferred_closure_capturing_the_loop_variable() {
    let cfg = lower("package p\nfunc f(items []string) {\n\tfor _, item := range items {\n\t\tdefer func() {\n\t\t\tprintln(item)\n\t\t}()\n\t}\n}\n");
    let hits = check_capture(&cfg);
    assert_eq!(hits.len(), 1, "got: {hits:#?}");
    assert_eq!(hits[0].kind, ClosureKind::Deferred);
}

#[test]
fn does_not_flag_a_plain_deferred_call_arguments_are_evaluated_immediately() {
    let cfg = lower("package p\nfunc f(items []string) {\n\tfor _, item := range items {\n\t\tdefer println(item)\n\t}\n}\n");
    assert!(check_capture(&cfg).is_empty());
}

#[test]
fn flags_the_address_of_a_loop_variable_appended_to_a_slice() {
    let cfg = lower("package p\nfunc f(items []string) []*string {\n\tvar out []*string\n\tfor _, item := range items {\n\t\tout = append(out, &item)\n\t}\n\treturn out\n}\n");
    let hits = check_address(&cfg);
    assert_eq!(hits.len(), 1, "got: {hits:#?}");
    assert_eq!(hits[0].var, "item");
}

#[test]
fn flags_a_direct_address_of_assignment() {
    let cfg = lower("package p\nfunc f(items []string) {\n\tfor _, item := range items {\n\t\tp := &item\n\t\t_ = p\n\t}\n}\n");
    let hits = check_address(&cfg);
    assert_eq!(hits.len(), 1, "got: {hits:#?}");
}

#[test]
fn does_not_flag_a_shadowed_address_of_a_loop_variable() {
    let cfg = lower("package p\nfunc f(items []string) []*string {\n\tvar out []*string\n\tfor _, item := range items {\n\t\titem := item\n\t\tout = append(out, &item)\n\t}\n\treturn out\n}\n");
    assert!(check_address(&cfg).is_empty(), "got: {:#?}", check_address(&cfg));
}
