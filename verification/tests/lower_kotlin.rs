//! Lowering Kotlin functions to control-flow graphs.

use autoreview::dataflow::cfg::{CallTarget, Cfg, EdgeKind, GuardAgainst, GuardOp, RhsShape, Stmt};
use autoreview::dataflow::lower::kotlin::{function_name, lower_function};
use autoreview::langsupport::{parse_source, Language};
use autoreview::syntax::SyntaxNode;

fn find<'a>(node: &'a SyntaxNode, kind: &str) -> Option<&'a SyntaxNode> {
    if node.kind == kind {
        return Some(node);
    }
    node.children.iter().find_map(|child| find(child, kind))
}

fn lower(source: &str) -> Cfg<Stmt> {
    let root = parse_source(Language::Kotlin, source.as_bytes()).unwrap();
    let fn_node = find(&root, "function_declaration").expect("no function_declaration found");
    lower_function(fn_node)
}

#[test]
fn function_name_reads_the_functions_own_name() {
    let source = "class Foo {\n    fun doWork(): Int {\n        return 1\n    }\n}\n";
    let root = parse_source(Language::Kotlin, source.as_bytes()).unwrap();
    let fn_node = find(&root, "function_declaration").unwrap();
    assert_eq!(function_name(fn_node), Some("doWork".to_string()));
}

#[test]
fn kotlin_lowers_a_straight_line_function() {
    let cfg = lower("class Foo {\n    fun f(): Int {\n        val x = 1\n        return x\n    }\n}\n");
    assert!(cfg.nodes.iter().any(|n| n.stmts.iter().any(|s| matches!(s, Stmt::Assign { lhs, .. } if lhs == "x"))), "got: {:#?}", cfg.nodes);
    assert!(cfg.nodes.iter().any(|n| n.stmts.iter().any(|s| matches!(s, Stmt::Return { value: Some(v) } if v == "x"))), "got: {:#?}", cfg.nodes);
}

#[test]
fn kotlin_lowers_an_if_else_into_true_false_edges() {
    let cfg = lower("class Foo {\n    fun f(x: Int): Int {\n        if (x > 0) {\n            return x\n        } else {\n            return 0\n        }\n    }\n}\n");
    assert!(cfg.edges.iter().any(|(_, _, kind)| *kind == EdgeKind::True));
    assert!(cfg.edges.iter().any(|(_, _, kind)| *kind == EdgeKind::False));
}

#[test]
fn kotlin_lowers_a_null_assignment() {
    let cfg = lower("class Foo {\n    fun f(): String? {\n        val e: String? = null\n        return e\n    }\n}\n");
    assert!(cfg.nodes.iter().any(|n| n.stmts.iter().any(|s| matches!(s, Stmt::Assign { lhs, rhs: RhsShape::NilLiteral } if lhs == "e"))), "got: {:#?}", cfg.nodes);
}

#[test]
fn kotlin_lowers_a_for_loop_with_a_back_edge() {
    let cfg = lower("class Foo {\n    fun f() {\n        for (i in 0..10) {\n            val y = i\n        }\n    }\n}\n");
    assert!(cfg.edges.iter().any(|(_, _, kind)| *kind == EdgeKind::Loop));
}

#[test]
fn kotlin_lowers_a_while_loop_with_a_back_edge() {
    let cfg = lower("class Foo {\n    fun f() {\n        while (true) {\n            val y = 1\n        }\n    }\n}\n");
    assert!(cfg.edges.iter().any(|(_, _, kind)| *kind == EdgeKind::Loop));
}

#[test]
fn kotlin_recognizes_a_call_assigned_to_a_variable() {
    let cfg = lower("class Foo {\n    fun f(): Int {\n        val e = helper()\n        return e\n    }\n}\n");
    assert!(
        cfg.nodes.iter().any(|n| n.stmts.iter().any(|s| matches!(s, Stmt::Call { target: CallTarget::Named(name), assigned_to: Some(a), .. } if name == "helper" && a == "e"))),
        "got: {:#?}",
        cfg.nodes
    );
}

#[test]
fn kotlin_recognizes_a_member_call_assigned_to_a_variable() {
    let cfg = lower("class Foo {\n    fun f(stmt: Any, sql: String): Any {\n        val e = stmt.executeQuery(sql)\n        return e\n    }\n}\n");
    assert!(
        cfg.nodes.iter().any(|n| n.stmts.iter().any(
            |s| matches!(s, Stmt::Call { target: CallTarget::Named(name), args, assigned_to: Some(a) } if name == "stmt.executeQuery" && a == "e" && args.contains(&"sql".to_string()))
        )),
        "got: {:#?}",
        cfg.nodes
    );
}

#[test]
fn recognizes_a_bare_member_call_statement_with_no_assignment() {
    let cfg = lower("class Foo {\n    fun f(stmt: Any, sql: String) {\n        stmt.executeUpdate(sql)\n    }\n}\n");
    assert!(
        cfg.nodes.iter().any(|n| n.stmts.iter().any(
            |s| matches!(s, Stmt::Call { target: CallTarget::Named(name), args, assigned_to: None } if name == "stmt.executeUpdate" && args.contains(&"sql".to_string()))
        )),
        "got: {:#?}",
        cfg.nodes
    );
}

#[test]
fn kotlin_recognizes_a_not_equal_null_guard_on_the_true_branch() {
    let cfg = lower("class Foo {\n    fun f(e: String?) {\n        if (e != null) {\n            val x = 1\n        }\n    }\n}\n");
    assert!(
        cfg.nodes.iter().any(|n| n.stmts.iter().any(|s| matches!(s, Stmt::Guard { var, op: GuardOp::NotEqual, against: GuardAgainst::Nil } if var == "e"))),
        "got: {:#?}",
        cfg.nodes
    );
}

#[test]
fn kotlin_recognizes_an_equal_null_guard_with_operands_reversed() {
    let cfg = lower("class Foo {\n    fun f(e: String?) {\n        if (null == e) {\n            val x = 1\n        }\n    }\n}\n");
    assert!(
        cfg.nodes.iter().any(|n| n.stmts.iter().any(|s| matches!(s, Stmt::Guard { var, op: GuardOp::Equal, against: GuardAgainst::Nil } if var == "e"))),
        "got: {:#?}",
        cfg.nodes
    );
}

#[test]
fn kotlin_a_non_null_condition_produces_no_guard() {
    let cfg = lower("class Foo {\n    fun f(x: Int) {\n        if (x > 0) {\n            val y = 1\n        }\n    }\n}\n");
    assert!(!cfg.nodes.iter().any(|n| n.stmts.iter().any(|s| matches!(s, Stmt::Guard { .. }))), "got: {:#?}", cfg.nodes);
}

#[test]
fn comparing_two_variables_produces_no_guard_even_though_one_side_looks_like_null_text() {
    let cfg = lower("class Foo {\n    fun f(a: String, b: String) {\n        if (a != b) {\n            val y = 1\n        }\n    }\n}\n");
    assert!(!cfg.nodes.iter().any(|n| n.stmts.iter().any(|s| matches!(s, Stmt::Guard { .. }))), "got: {:#?}", cfg.nodes);
}
