//! Appending to a slice that shares its array.

use autoreview::dataflow::cfg::{Cfg, Stmt};
use autoreview::dataflow::lower::go::lower_function;
use autoreview::dataflow::rules::go_append_shared_backing_array::check;
use autoreview::langsupport::{parse_source, Language};

fn lower(source: &str) -> Cfg<Stmt> {
    let root = parse_source(Language::Go, source.as_bytes()).unwrap();
    let fn_node = root.children.iter().find(|n| n.named && n.kind == "function_declaration").expect("no function_declaration found");
    lower_function(fn_node)
}

#[test]
fn flags_append_when_full_is_used_afterward() {
    let cfg = lower("package p\nfunc f(full []int) []int {\n\tsub := full[2:4]\n\tsub = append(sub, 9)\n\tprintln(full[0])\n\treturn sub\n}\n");
    let hits = check(&cfg);
    assert_eq!(hits.len(), 1, "got: {hits:#?}");
    assert_eq!(hits[0].full, "full");
    assert_eq!(hits[0].sub, "sub");
}

#[test]
fn does_not_flag_when_full_is_never_used_again() {
    let cfg = lower("package p\nfunc f(full []int) []int {\n\tsub := full[2:4]\n\tsub = append(sub, 9)\n\treturn sub\n}\n");
    let hits = check(&cfg);
    assert!(hits.is_empty(), "got: {hits:#?}");
}

#[test]
fn does_not_flag_after_sub_is_reassigned_to_something_unrelated() {
    let cfg = lower(
        "package p\nfunc f(full []int, other []int) []int {\n\tsub := full[2:4]\n\tsub = other\n\tsub = append(sub, 9)\n\tprintln(full[0])\n\treturn sub\n}\n",
    );
    let hits = check(&cfg);
    assert!(hits.is_empty(), "got: {hits:#?}");
}

fn body(stmts: &str) -> Cfg<Stmt> {
    lower(&format!("package p\nfunc f(a []int, b []int, c bool) []int {{\n{stmts}\treturn sub\n}}\n"))
}

#[test]
fn a_use_that_a_loop_leads_back_to_counts() {
    let hits = check(&body("\tsub := a[2:4]\n\tfor c {\n\t\tprintln(a[0])\n\t\tsub = append(sub, 9)\n\t}\n"));
    assert_eq!(hits.len(), 1, "got: {hits:#?}");
    assert_eq!((hits[0].full.as_str(), hits[0].sub.as_str()), ("a", "sub"));
    let hits = check(&body("\tsub := a[2:4]\n\tprintln(a[0])\n\tsub = append(sub, 9)\n"));
    assert!(hits.is_empty(), "got: {hits:#?}");
}

#[test]
fn ties_are_carried_along_the_graph() {
    let across = check(&body("\tsub := a[1:2]\n\tif c {\n\t\tprintln(1)\n\t}\n\tsub = append(sub, 9)\n\tprintln(a[0])\n"));
    assert_eq!(across.len(), 1, "got: {across:#?}");
    let equal = check(&body("\tsub := a[1:2]\n\tif c {\n\t\tsub = a[2:3]\n\t}\n\tsub = append(sub, 9)\n\tprintln(a[0])\n"));
    assert_eq!(equal.len(), 1, "got: {equal:#?}");
    let unequal = check(&body("\tsub := a[1:2]\n\tif c {\n\t\tsub = b[2:3]\n\t}\n\tsub = append(sub, 9)\n\tprintln(a[0])\n\tprintln(b[0])\n"));
    assert!(unequal.is_empty(), "got: {unequal:#?}");
}

#[test]
fn a_slice_that_a_call_hands_out_is_tied_to_none() {
    let hits = check(&body("\tsub := a[1:2]\n\tsub = fresh()\n\tsub = append(sub, 9)\n\tprintln(a[0])\n"));
    assert!(hits.is_empty(), "got: {hits:#?}");
    let hits = check(&body("\tsub := a[1:2]\n\tsub = append(sub, 8)\n\tsub = append(sub, 9)\n\tprintln(a[0])\n"));
    assert_eq!(hits.len(), 2, "got: {hits:#?}");
}
