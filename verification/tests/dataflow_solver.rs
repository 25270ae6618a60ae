//! Control-flow graphs and the worklist solver.

use autoreview::dataflow::call_order::Pending;
use autoreview::dataflow::cfg::{Cfg, CfgNode, EdgeKind, NodeId, Stmt};
use autoreview::dataflow::solver::solve;

fn reachability(entry: NodeId) -> impl Fn(NodeId, &CfgNode<Stmt>, &Pending) -> Pending {
    move |node, _cfg_node, in_fact| if node == entry { Pending(true) } else { *in_fact }
}

#[test]
fn tracks_predecessors_and_successors() {
    let mut cfg: Cfg<Stmt> = Cfg::new_empty();
    let a = cfg.push_node(1);
    let b = cfg.push_node(2);
    let c = cfg.push_node(3);
    cfg.edges.push((a, b, EdgeKind::True));
    cfg.edges.push((a, c, EdgeKind::False));
    cfg.entry = a;
    cfg.exit = c;

    assert_eq!(cfg.successors(a), vec![b, c]);
    assert_eq!(cfg.predecessors(c), vec![a]);
    assert!(cfg.predecessors(a).is_empty());
}

#[test]
fn joins_facts_from_both_branches_of_a_diamond() {
    let mut cfg: Cfg<Stmt> = Cfg::new_empty();
    let entry = cfg.push_node(1);
    let a = cfg.push_node(2);
    let b = cfg.push_node(3);
    let join = cfg.push_node(4);
    cfg.edges.push((entry, a, EdgeKind::True));
    cfg.edges.push((entry, b, EdgeKind::False));
    cfg.edges.push((a, join, EdgeKind::Fallthrough));
    cfg.edges.push((b, join, EdgeKind::Fallthrough));
    cfg.entry = entry;
    cfg.exit = join;

    let facts = solve(&cfg, reachability(entry));
    assert_eq!(facts[join], Pending(true), "join node should be reachable via either branch");
}

#[test]
fn terminates_on_a_loop_back_edge() {
    let mut cfg: Cfg<Stmt> = Cfg::new_empty();
    let header = cfg.push_node(1);
    let body = cfg.push_node(2);
    let after = cfg.push_node(3);
    cfg.edges.push((header, body, EdgeKind::True));
    cfg.edges.push((body, header, EdgeKind::Loop));
    cfg.edges.push((header, after, EdgeKind::False));
    cfg.entry = header;
    cfg.exit = after;

    let facts = solve(&cfg, reachability(header));
    assert_eq!(facts[after], Pending(true));
    assert_eq!(facts[body], Pending(true));
}

#[test]
fn an_unreachable_node_stays_at_bottom() {
    let mut cfg: Cfg<Stmt> = Cfg::new_empty();
    let entry = cfg.push_node(1);
    let ret = cfg.push_node(2);
    let unreachable = cfg.push_node(3);
    cfg.edges.push((entry, ret, EdgeKind::Fallthrough));
    cfg.entry = entry;
    cfg.exit = ret;

    let facts = solve(&cfg, reachability(entry));
    assert_eq!(facts[unreachable], Pending(false));
    assert_eq!(facts[ret], Pending(true));
}
