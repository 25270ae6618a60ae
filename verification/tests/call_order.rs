//! Rules on the order of calls.

use autoreview::dataflow::call_order::{check, CallOrderSpec};
use autoreview::dataflow::cfg::{CallTarget, Cfg, EdgeKind, RhsShape, Stmt};
use autoreview::dataflow::taint::NamePattern;

fn xxe_spec() -> CallOrderSpec {
    CallOrderSpec {
        rule_id: "test-xxe".to_string(),
        after: vec![NamePattern::suffix("newInstance")],
        unless: vec![NamePattern::suffix("setFeature")],
        before: vec![NamePattern::suffix("parse")],
        check_before_return: false,
    }
}

fn lock_spec() -> CallOrderSpec {
    CallOrderSpec {
        rule_id: "test-unreleased-lock".to_string(),
        after: vec![NamePattern::suffix("Lock")],
        unless: vec![NamePattern::suffix("Unlock")],
        before: vec![],
        check_before_return: true,
    }
}

fn straight_line(stmts: Vec<Stmt>) -> Cfg<Stmt> {
    let mut cfg: Cfg<Stmt> = Cfg::new_empty();
    let entry = cfg.push_node(1);
    cfg.nodes[entry].stmts = stmts;
    cfg.entry = entry;
    cfg.exit = entry;
    cfg
}

fn call(name: &str, assigned_to: Option<&str>) -> Stmt {
    Stmt::Call { target: CallTarget::Named(name.to_string()), args: vec![], assigned_to: assigned_to.map(str::to_string) }
}

#[test]
fn flags_parse_reached_without_an_intervening_setfeature_call() {
    let cfg = straight_line(vec![call("DocumentBuilderFactory.newInstance", Some("dbf")), call("dbf.parse", None)]);
    let hits = check(&xxe_spec(), &cfg);
    assert_eq!(hits.len(), 1, "got: {hits:#?}");
    assert_eq!(hits[0].trigger_call, "dbf.parse");
}

#[test]
fn does_not_flag_parse_after_setfeature_was_called() {
    let cfg = straight_line(vec![call("DocumentBuilderFactory.newInstance", Some("dbf")), call("dbf.setFeature", None), call("dbf.parse", None)]);
    assert!(check(&xxe_spec(), &cfg).is_empty());
}

#[test]
fn does_not_flag_parse_with_no_newinstance_call_at_all() {
    let cfg = straight_line(vec![call("dbf.parse", None)]);
    assert!(check(&xxe_spec(), &cfg).is_empty());
}

#[test]
fn flags_a_return_reached_while_a_lock_is_still_held() {
    let mut cfg: Cfg<Stmt> = Cfg::new_empty();
    let entry = cfg.push_node(1);
    cfg.nodes[entry].stmts = vec![call("mu.Lock", None), Stmt::Return { value: None }];
    cfg.entry = entry;
    cfg.exit = entry;
    let hits = check(&lock_spec(), &cfg);
    assert_eq!(hits.len(), 1, "got: {hits:#?}");
}

#[test]
fn does_not_flag_a_return_after_the_lock_was_released() {
    let mut cfg: Cfg<Stmt> = Cfg::new_empty();
    let entry = cfg.push_node(1);
    cfg.nodes[entry].stmts = vec![call("mu.Lock", None), call("mu.Unlock", None), Stmt::Return { value: None }];
    cfg.entry = entry;
    cfg.exit = entry;
    assert!(check(&lock_spec(), &cfg).is_empty());
}

#[test]
fn does_not_flag_a_return_with_no_lock_ever_taken() {
    let mut cfg: Cfg<Stmt> = Cfg::new_empty();
    let entry = cfg.push_node(1);
    cfg.nodes[entry].stmts = vec![Stmt::Return { value: None }];
    cfg.entry = entry;
    cfg.exit = entry;
    assert!(check(&lock_spec(), &cfg).is_empty());
}

#[test]
fn flags_only_the_branch_that_never_released_the_lock() {
    let mut cfg: Cfg<Stmt> = Cfg::new_empty();
    let entry = cfg.push_node(1);
    let unlocked_branch = cfg.push_node(2);
    let forgot_branch = cfg.push_node(3);
    let join = cfg.push_node(4);
    cfg.nodes[entry].stmts = vec![call("mu.Lock", None)];
    cfg.nodes[unlocked_branch].stmts = vec![call("mu.Unlock", None)];
    cfg.nodes[join].stmts = vec![Stmt::Return { value: None }];
    cfg.edges.push((entry, unlocked_branch, EdgeKind::True));
    cfg.edges.push((entry, forgot_branch, EdgeKind::False));
    cfg.edges.push((unlocked_branch, join, EdgeKind::Fallthrough));
    cfg.edges.push((forgot_branch, join, EdgeKind::Fallthrough));
    cfg.entry = entry;
    cfg.exit = join;

    let hits = check(&lock_spec(), &cfg);
    assert_eq!(hits.len(), 1, "got: {hits:#?} — the join's pending fact must be the OR of both incoming branches, still flagging the return even though one branch did unlock");
}

#[test]
fn does_not_flag_a_var_declaration_shaped_like_return() {
    let cfg = straight_line(vec![call("DocumentBuilderFactory.newInstance", Some("dbf")), Stmt::Assign { lhs: "x".to_string(), rhs: RhsShape::Var("dbf".to_string()) }]);
    assert!(check(&xxe_spec(), &cfg).is_empty());
}
