//! Lowering JavaScript and TypeScript functions to control-flow graphs.

use autoreview::dataflow::cfg::{CallTarget, Cfg, EdgeKind, RhsShape, Stmt};
use autoreview::dataflow::lower::javascript::lower_function;
use autoreview::langsupport::{parse_source, Language};

fn lower(source: &str, language: Language) -> Cfg<Stmt> {
    let root = parse_source(language, source.as_bytes()).unwrap();
    let fn_node = root.children.iter().find(|n| n.named && n.kind == "function_declaration").expect("no function_declaration found");
    lower_function(fn_node)
}

#[test]
fn javascript_lowers_a_straight_line_function() {
    let cfg = lower("function f() {\n  let x = 1;\n  return x;\n}\n", Language::JavaScript);
    assert!(cfg.nodes.iter().any(|n| n.stmts.iter().any(|s| matches!(s, Stmt::Assign { lhs, .. } if lhs == "x"))), "got: {:#?}", cfg.nodes);
    assert!(cfg.nodes.iter().any(|n| n.stmts.iter().any(|s| matches!(s, Stmt::Return { value: Some(v) } if v == "x"))), "got: {:#?}", cfg.nodes);
}

#[test]
fn javascript_lowers_an_if_else_into_true_false_edges() {
    let cfg = lower("function f(x) {\n  if (x > 0) {\n    return x;\n  } else {\n    return 0;\n  }\n}\n", Language::JavaScript);
    assert!(cfg.edges.iter().any(|(_, _, kind)| *kind == EdgeKind::True));
    assert!(cfg.edges.iter().any(|(_, _, kind)| *kind == EdgeKind::False));
}

#[test]
fn javascript_lowers_a_null_assignment() {
    let cfg = lower("function f() {\n  let e = null;\n  return e;\n}\n", Language::JavaScript);
    assert!(cfg.nodes.iter().any(|n| n.stmts.iter().any(|s| matches!(s, Stmt::Assign { lhs, rhs: RhsShape::NilLiteral } if lhs == "e"))), "got: {:#?}", cfg.nodes);
}

#[test]
fn javascript_lowers_a_for_loop_with_a_back_edge() {
    let cfg = lower("function f() {\n  for (let i = 0; i < 10; i++) {\n    let y = i;\n  }\n}\n", Language::JavaScript);
    assert!(cfg.edges.iter().any(|(_, _, kind)| *kind == EdgeKind::Loop));
}

#[test]
fn javascript_lowers_a_while_loop_with_a_back_edge() {
    let cfg = lower("function f() {\n  while (true) {\n    let y = 1;\n  }\n}\n", Language::JavaScript);
    assert!(cfg.edges.iter().any(|(_, _, kind)| *kind == EdgeKind::Loop));
}

#[test]
fn javascript_recognizes_a_call_assigned_to_a_variable() {
    let cfg = lower("function f() {\n  let e = helper();\n  return e;\n}\n", Language::JavaScript);
    assert!(
        cfg.nodes.iter().any(|n| n.stmts.iter().any(|s| matches!(s, Stmt::Call { target: CallTarget::Named(name), assigned_to: Some(a), .. } if name == "helper" && a == "e"))),
        "got: {:#?}",
        cfg.nodes
    );
}

#[test]
fn javascript_recognizes_a_member_call_assigned_to_a_variable() {
    let cfg = lower("function f(req) {\n  let q = req.query(sql);\n  return q;\n}\n", Language::JavaScript);
    assert!(
        cfg.nodes
            .iter()
            .any(|n| n.stmts.iter().any(|s| matches!(s, Stmt::Call { target: CallTarget::Named(name), args, assigned_to: Some(a) } if name == "req.query" && a == "q" && args.contains(&"sql".to_string())))),
        "got: {:#?}",
        cfg.nodes
    );
}

#[test]
fn recognizes_a_bare_call_statement_with_no_assignment() {
    let cfg = lower("function f(stmt, sql) {\n  stmt.execute(sql);\n}\n", Language::JavaScript);
    assert!(
        cfg.nodes
            .iter()
            .any(|n| n.stmts.iter().any(|s| matches!(s, Stmt::Call { target: CallTarget::Named(name), args, assigned_to: None } if name == "stmt.execute" && args.contains(&"sql".to_string())))),
        "got: {:#?}",
        cfg.nodes
    );
}

#[test]
fn works_identically_against_typescript_source() {
    let cfg = lower("function f(req: Request): string {\n  const q: string = req.query(sql);\n  return q;\n}\n", Language::TypeScript);
    assert!(
        cfg.nodes
            .iter()
            .any(|n| n.stmts.iter().any(|s| matches!(s, Stmt::Call { target: CallTarget::Named(name), assigned_to: Some(a), .. } if name == "req.query" && a == "q"))),
        "got: {:#?}",
        cfg.nodes
    );
}

#[test]
fn a_declaration_of_several_variables_is_not_modelled() {
    let cfg = lower("function f() {\n  let a = null, b = g();\n  return a;\n}\n", Language::JavaScript);
    let stmts: Vec<&Stmt> = cfg.nodes.iter().flat_map(|n| n.stmts.iter()).collect();
    assert!(stmts.iter().any(|s| matches!(s, Stmt::Other(source) if source.contains("a = null, b = g()"))), "got: {stmts:#?}");
    assert!(!stmts.iter().any(|s| matches!(s, Stmt::Assign { .. } | Stmt::Call { .. })), "got: {stmts:#?}");
}
