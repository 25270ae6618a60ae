//! What holds of the dataflow rules, whatever the graph.

use autoreview::dataflow::call_order::{check as check_order, CallOrderSpec};
use autoreview::dataflow::cfg::{CallTarget, Cfg, EdgeKind, Stmt};
use autoreview::dataflow::rules::go_append_shared_backing_array::contains_whole_word;
use autoreview::dataflow::summaries::Summaries;
use autoreview::dataflow::taint::{check_with_summaries, NamePattern, TaintSink, TaintSpec};
use autoreview::langsupport::{parse_source, Language};

fn call(name: &str, args: &[&str], assigned_to: Option<&str>) -> Stmt {
    Stmt::Call {
        target: CallTarget::Named(name.to_string()),
        args: args.iter().map(|s| s.to_string()).collect(),
        assigned_to: assigned_to.map(str::to_string),
    }
}

fn line(stmts: Vec<Stmt>) -> Cfg<Stmt> {
    let mut cfg: Cfg<Stmt> = Cfg::new_empty();
    let entry = cfg.push_node(1);
    cfg.nodes[entry].stmts = stmts;
    cfg.entry = entry;
    cfg.exit = entry;
    cfg
}

fn taint(sources: Vec<NamePattern>, positions: Option<Vec<usize>>) -> TaintSpec {
    TaintSpec {
        rule_id: "t".to_string(),
        sources,
        sinks: vec![TaintSink { call: NamePattern::suffix("Query"), tainted_arg_positions: positions }],
        sanitizers: vec![NamePattern::suffix("Escape")],
    }
}

#[test]
fn a_call_that_is_both_clears() {
    let spec = CallOrderSpec {
        rule_id: "r".to_string(),
        after: vec![NamePattern::suffix("Reset")],
        unless: vec![NamePattern::suffix("Reset")],
        before: vec![NamePattern::suffix("Use")],
        check_before_return: true,
    };
    assert!(check_order(&spec, &line(vec![call("x.Reset", &[], None), call("x.Use", &[], None)])).is_empty());
}

#[test]
fn without_sources_nothing_is_tainted() {
    let cfg = line(vec![call("FormValue", &[], Some("v")), call("db.Query", &["v"], None)]);
    assert!(check_with_summaries(&taint(vec![], None), &cfg, None).is_empty());
    assert_eq!(check_with_summaries(&taint(vec![NamePattern::suffix("FormValue")], None), &cfg, None).len(), 1);
}

#[test]
fn summaries_that_never_say_yes_change_nothing() {
    let cfg = line(vec![call("helper", &[], Some("v")), call("db.Query", &["v"], None)]);
    let spec = taint(vec![NamePattern::suffix("FormValue")], None);
    let mut summaries = Summaries::new();
    summaries.insert("helper".to_string(), false);
    assert!(check_with_summaries(&spec, &cfg, Some(&summaries)).is_empty());
    summaries.insert("helper".to_string(), true);
    assert!(summaries.says("helper") && !summaries.says("other"));
    assert_eq!(check_with_summaries(&spec, &cfg, Some(&summaries)).len(), 1);
}

#[test]
fn only_the_positions_of_a_sink_count() {
    let cfg = line(vec![call("FormValue", &[], Some("v")), call("db.Query", &["q", "v"], None)]);
    let sources = || vec![NamePattern::suffix("FormValue")];
    assert!(check_with_summaries(&taint(sources(), Some(vec![0])), &cfg, None).is_empty());
    let hits = check_with_summaries(&taint(sources(), Some(vec![0, 1])), &cfg, None);
    assert_eq!(hits.len(), 1);
    assert_eq!(hits[0].tainted_arg, "v");
}

#[test]
fn a_sanitized_variable_is_clean_and_the_others_are_not() {
    let sources = vec![NamePattern::suffix("FormValue")];
    let cfg = line(vec![
        call("FormValue", &[], Some("v")),
        call("Escape", &["v"], Some("w")),
        call("db.Query", &["w"], None),
        call("db.Query", &["v"], None),
    ]);
    let hits = check_with_summaries(&taint(sources, None), &cfg, None);
    assert_eq!(hits.len(), 1);
    assert_eq!(hits[0].tainted_arg, "v");
}

#[test]
fn predecessors_and_successors_mirror_each_other() {
    let mut cfg: Cfg<Stmt> = Cfg::new_empty();
    for i in 0..4 {
        cfg.push_node(i);
    }
    cfg.add_edge(0, 1, EdgeKind::True);
    cfg.add_edge(0, 2, EdgeKind::False);
    cfg.add_edge(1, 3, EdgeKind::Fallthrough);
    cfg.add_edge(2, 3, EdgeKind::Fallthrough);
    for a in 0..4 {
        for b in 0..4 {
            assert_eq!(cfg.successors(a).contains(&b), cfg.predecessors(b).contains(&a));
        }
    }
    assert_eq!(cfg.predecessors(3), vec![1, 2]);
    cfg.add_edge(1, 3, EdgeKind::Loop);
    let times = |found: Vec<usize>, id: usize| found.into_iter().filter(|n| *n == id).count();
    for a in 0..4 {
        for b in 0..4 {
            assert_eq!(times(cfg.successors(a), b), times(cfg.predecessors(b), a));
        }
    }
    assert_eq!(times(cfg.predecessors(3), 1), 2);
}

#[test]
fn words_are_whole() {
    assert!(contains_whole_word("f(full[0])", "full"));
    assert!(!contains_whole_word("f(fullness)", "full"));
    assert!(!contains_whole_word("my_full", "full"));
}

#[test]
fn bytes_that_are_no_text_still_parse() {
    let root = parse_source(Language::Go, &[0xff, 0xfe, b'\n']);
    if let Some(root) = root {
        assert_eq!(root.kind, "source_file");
    }
    let root = parse_source(Language::Go, b"package p\nfunc f() { g(1) }\n").unwrap();
    assert_eq!(root.kind, "source_file");
    assert_eq!(root.count_named_of_kind("function_declaration"), 1);
    let function = root.named_child_of_kind("function_declaration").unwrap();
    assert_eq!(function.child_by_role("name").unwrap().text, "f");
    assert_eq!((function.start_line(), function.end_line()), (2, 2));
    let mut names = Vec::new();
    function.collect_identifiers(&mut names);
    assert_eq!(names, vec!["f".to_string(), "g".to_string()]);
}
