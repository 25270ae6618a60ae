//! Lowering Java functions to control-flow graphs.

use autoreview::dataflow::cfg::{CallTarget, Cfg, EdgeKind, GuardAgainst, GuardOp, RhsShape, Stmt};
use autoreview::dataflow::lower::java::{function_name, lower_function};
use autoreview::langsupport::{parse_source, Language};
use autoreview::syntax::SyntaxNode;

fn find<'a>(node: &'a SyntaxNode, kind: &str) -> Option<&'a SyntaxNode> {
    if node.kind == kind {
        return Some(node);
    }
    node.children.iter().find_map(|child| find(child, kind))
}

fn lower(source: &str) -> Cfg<Stmt> {
    let root = parse_source(Language::Java, source.as_bytes()).unwrap();
    let fn_node = find(&root, "method_declaration").expect("no method_declaration found");
    lower_function(fn_node)
}

#[test]
fn function_name_reads_the_methods_own_name() {
    let source = "class Foo {\n    int doWork() {\n        return 1;\n    }\n}\n";
    let root = parse_source(Language::Java, source.as_bytes()).unwrap();
    let fn_node = find(&root, "method_declaration").unwrap();
    assert_eq!(function_name(fn_node), Some("doWork".to_string()));
}

#[test]
fn lowers_a_straight_line_method() {
    let cfg = lower("class Foo {\n    int f() {\n        int x = 1;\n        return x;\n    }\n}\n");
    assert!(cfg.nodes.iter().any(|n| n.stmts.iter().any(|s| matches!(s, Stmt::Assign { lhs, .. } if lhs == "x"))));
    assert!(cfg.nodes.iter().any(|n| n.stmts.iter().any(|s| matches!(s, Stmt::Return { value: Some(v) } if v == "x"))));
}

#[test]
fn java_lowers_an_if_else_into_true_false_edges() {
    let cfg = lower("class Foo {\n    void f(int x) {\n        int y = 0;\n        if (x > 0) {\n            y = 1;\n        } else {\n            y = 2;\n        }\n    }\n}\n");
    assert!(cfg.edges.iter().any(|(_, _, kind)| *kind == EdgeKind::True));
    assert!(cfg.edges.iter().any(|(_, _, kind)| *kind == EdgeKind::False));
}

#[test]
fn java_lowers_a_null_assignment() {
    let cfg = lower("class Foo {\n    Object f() {\n        Object o = null;\n        return o;\n    }\n}\n");
    assert!(cfg.nodes.iter().any(|n| n.stmts.iter().any(|s| matches!(s, Stmt::Assign { lhs, rhs: RhsShape::NilLiteral } if lhs == "o"))), "got: {:#?}", cfg.nodes);
}

#[test]
fn java_lowers_a_for_loop_with_a_back_edge() {
    let cfg = lower("class Foo {\n    void f() {\n        for (int i = 0; i < 10; i++) {\n            int y = i;\n        }\n    }\n}\n");
    assert!(cfg.edges.iter().any(|(_, _, kind)| *kind == EdgeKind::Loop));
}

#[test]
fn java_lowers_a_while_loop_with_a_back_edge() {
    let cfg = lower("class Foo {\n    void f() {\n        while (true) {\n            int y = 1;\n        }\n    }\n}\n");
    assert!(cfg.edges.iter().any(|(_, _, kind)| *kind == EdgeKind::Loop));
}

#[test]
fn java_recognizes_a_bare_method_call_statement_with_no_assignment() {
    let cfg = lower("class Foo {\n    void f(String sql) {\n        stmt.executeUpdate(sql);\n    }\n}\n");
    assert!(
        cfg.nodes.iter().any(|n| n.stmts.iter().any(|s| matches!(s, Stmt::Call { target: CallTarget::Named(name), assigned_to: None, args } if name == "stmt.executeUpdate" && args.contains(&"sql".to_string())))),
        "got: {:#?}",
        cfg.nodes
    );
}

#[test]
fn recognizes_a_method_call_assigned_to_a_variable() {
    let cfg = lower("class Foo {\n    Object f() {\n        Object e = helper();\n        return e;\n    }\n}\n");
    assert!(
        cfg.nodes.iter().any(|n| n.stmts.iter().any(|s| matches!(s, Stmt::Call { target: CallTarget::Named(name), assigned_to: Some(a), .. } if name == "helper" && a == "e"))),
        "got: {:#?}",
        cfg.nodes
    );
}

#[test]
fn a_call_with_no_receiver_lowers_to_a_bare_name() {
    let cfg = lower("class Foo {\n    Object f() {\n        Object e = helper();\n        return e;\n    }\n}\n");
    assert!(
        cfg.nodes.iter().any(|n| n.stmts.iter().any(|s| matches!(s, Stmt::Call { target: CallTarget::Named(name), .. } if name == "helper"))),
        "a call with no object/receiver field must stay a bare name, got: {:#?}",
        cfg.nodes
    );
}

#[test]
fn a_call_with_a_variable_receiver_lowers_to_a_qualified_name() {
    let cfg = lower("class Foo {\n    Object f() {\n        Object e = helper.get();\n        return e;\n    }\n}\n");
    assert!(
        cfg.nodes.iter().any(|n| n.stmts.iter().any(|s| matches!(s, Stmt::Call { target: CallTarget::Named(name), .. } if name == "helper.get"))),
        "got: {:#?}",
        cfg.nodes
    );
}

#[test]
fn java_recognizes_a_not_equal_null_guard_on_the_true_branch() {
    let cfg = lower("class Foo {\n    void f(Object e) {\n        if (e != null) {\n            int x = 1;\n        }\n    }\n}\n");
    assert!(
        cfg.nodes.iter().any(|n| n.stmts.iter().any(|s| matches!(s, Stmt::Guard { var, op: GuardOp::NotEqual, against: GuardAgainst::Nil } if var == "e"))),
        "got: {:#?}",
        cfg.nodes
    );
}

#[test]
fn java_recognizes_an_equal_null_guard_with_operands_reversed() {
    let cfg = lower("class Foo {\n    void f(Object e) {\n        if (null == e) {\n            int x = 1;\n        }\n    }\n}\n");
    assert!(
        cfg.nodes.iter().any(|n| n.stmts.iter().any(|s| matches!(s, Stmt::Guard { var, op: GuardOp::Equal, against: GuardAgainst::Nil } if var == "e"))),
        "got: {:#?}",
        cfg.nodes
    );
}

#[test]
fn java_a_non_null_condition_produces_no_guard() {
    let cfg = lower("class Foo {\n    void f(int x) {\n        if (x > 0) {\n            int y = 1;\n        }\n    }\n}\n");
    assert!(!cfg.nodes.iter().any(|n| n.stmts.iter().any(|s| matches!(s, Stmt::Guard { .. }))), "got: {:#?}", cfg.nodes);
}
