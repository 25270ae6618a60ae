//! The graph shapes that all languages share: the start and end of a function,
//! a return, the two arms of a conditional, a loop.

use vstd::prelude::*;

use crate::dataflow::cfg;
use crate::dataflow::cfg::{
    CallTarget, CallTargetView, Cfg, EdgeKind, GraphView, GuardAgainst, GuardOp, NodeId, Stmt, StmtView,
};
use crate::syntax::SyntaxNode;
use crate::text;

verus! {

/// A graph with the entry and the exit of a function and nothing between them.
pub open spec fn opened(fn_node: SyntaxNode) -> GraphView {
    GraphView { entry: 0, exit: 1, nodes: Seq::empty(), edges: Seq::empty() }.with_node(
        fn_node.first_line(),
    ).with_node(fn_node.last_line())
}

/// The graph with a return at the end of `current`, and a fresh node that
/// nothing leads to for what stands behind it.
pub open spec fn returned(
    g: GraphView,
    stmt: SyntaxNode,
    current: NodeId,
    value: Option<Seq<char>>,
) -> (GraphView, NodeId) {
    let g = g.with_stmt(current, StmtView::Return { value }).with_edge(
        current,
        g.exit,
        EdgeKind::Fallthrough,
    );
    (g.with_node(stmt.first_line()), g.next_id())
}

/// The graph with a node for the true arm of a conditional, which starts with
/// what the condition says of a variable.
pub open spec fn true_arm(
    g: GraphView,
    stmt: SyntaxNode,
    current: NodeId,
    guard: Option<(Seq<char>, GuardOp)>,
) -> (GraphView, NodeId) {
    let start = g.next_id();
    let g = g.with_node(stmt.first_line()).with_edge(current, start, EdgeKind::True);
    match guard {
        Some((var, op)) => (
            g.with_stmt(start, StmtView::Guard { var, op, against: GuardAgainst::Nil }),
            start,
        ),
        None => (g, start),
    }
}

/// What a recognised condition says of a variable.
pub open spec fn guard_view(guard: Option<(String, GuardOp)>) -> Option<(Seq<char>, GuardOp)> {
    match guard {
        Some((var, op)) => Some((var@, op)),
        None => None,
    }
}

/// The variable that is not nil where a condition fails: that of an `== nil`
/// comparison.
pub open spec fn not_nil_otherwise(guard: Option<(Seq<char>, GuardOp)>) -> Option<Seq<char>> {
    match guard {
        Some((var, GuardOp::Equal)) => Some(var),
        _ => None,
    }
}

/// The graph with a node for the false arm of a conditional, which starts with
/// what the failed condition says of a variable.
pub open spec fn false_arm(
    g: GraphView,
    stmt: SyntaxNode,
    current: NodeId,
    guard: Option<(Seq<char>, GuardOp)>,
) -> (GraphView, NodeId) {
    let start = g.next_id();
    let g = g.with_node(stmt.first_line()).with_edge(current, start, EdgeKind::False);
    match not_nil_otherwise(guard) {
        Some(var) => (
            g.with_stmt(
                start,
                StmtView::Guard { var, op: GuardOp::NotEqual, against: GuardAgainst::Nil },
            ),
            start,
        ),
        None => (g, start),
    }
}

/// The graph of a conditional without an alternative: there is a false arm only
/// where the failed condition says something of a variable.
pub open spec fn skipped_arm(
    g: GraphView,
    stmt: SyntaxNode,
    current: NodeId,
    guard: Option<(Seq<char>, GuardOp)>,
) -> (GraphView, Option<NodeId>) {
    if not_nil_otherwise(guard) is Some {
        let (g, start) = false_arm(g, stmt, current, guard);
        (g, Some(start))
    } else {
        (g, None)
    }
}

/// The graph with the node where the arms of a conditional meet. Without a
/// false arm, control passes there from where the conditional stands.
pub open spec fn joined(
    g: GraphView,
    stmt: SyntaxNode,
    current: NodeId,
    true_end: NodeId,
    false_end: Option<NodeId>,
) -> (GraphView, NodeId) {
    let join = g.next_id();
    let g = g.with_node(stmt.last_line()).with_edge(true_end, join, EdgeKind::Fallthrough);
    match false_end {
        Some(end) => (g.with_edge(end, join, EdgeKind::Fallthrough), join),
        None => (g.with_edge(current, join, EdgeKind::False), join),
    }
}

/// The graph with a node for the body of a loop whose header is `header`.
pub open spec fn loop_body(g: GraphView, stmt: SyntaxNode, header: NodeId) -> (GraphView, NodeId) {
    let start = g.next_id();
    (g.with_node(stmt.first_line()).with_edge(header, start, EdgeKind::True), start)
}

/// The graph with the back edge of a loop and a node behind it.
pub open spec fn looped(g: GraphView, stmt: SyntaxNode, header: NodeId, body_end: NodeId) -> (
    GraphView,
    NodeId,
) {
    let g = g.with_edge(body_end, header, EdgeKind::Loop);
    let after = g.next_id();
    (g.with_node(stmt.last_line()).with_edge(header, after, EdgeKind::False), after)
}

/// A call of a named function.
pub open spec fn call_of(
    name: Seq<char>,
    args: Seq<Seq<char>>,
    assigned_to: Option<Seq<char>>,
) -> StmtView {
    StmtView::Call { target: CallTargetView::Named(name), args, assigned_to }
}

/// The statement that keeps nothing but its source.
pub open spec fn other(node: SyntaxNode) -> StmtView {
    StmtView::Other(node.trimmed_text())
}

/// What a comparison with nil asks, by the operator that its source holds.
pub open spec fn guard_op(source: Seq<char>) -> Option<GuardOp> {
    if text::has(source, "!="@) {
        Some(GuardOp::NotEqual)
    } else if text::has(source, "=="@) {
        Some(GuardOp::Equal)
    } else {
        None
    }
}

/// The statement that keeps nothing but its source.
pub fn other_stmt(node: &SyntaxNode) -> (stmt: Stmt)
    ensures
        stmt@ == other(*node),
{
    Stmt::Other(node.trimmed().to_owned())
}

/// A call of a named function.
pub fn call_stmt(name: String, args: Vec<String>, assigned_to: Option<String>) -> (stmt: Stmt)
    ensures
        stmt@ == call_of(name@, text::views(args@), text::optional(assigned_to)),
{
    Stmt::Call { target: CallTarget::Named(name), args, assigned_to }
}

/// What a comparison with nil asks, by the operator that its source holds.
pub fn find_guard_op(source: &str) -> (op: Option<GuardOp>)
    ensures
        op == guard_op(source@),
{
    if text::contains(source, "!=") {
        Some(GuardOp::NotEqual)
    } else if text::contains(source, "==") {
        Some(GuardOp::Equal)
    } else {
        None
    }
}

/// A graph with the entry and the exit of a function and nothing between them.
pub fn open_function(fn_node: &SyntaxNode) -> (cfg: Cfg<Stmt>)
    ensures
        cfg@ == opened(*fn_node),
        cfg.open_at(0),
        cfg.entry == 0,
        cfg.exit == 1,
        cfg.nodes@.len() == 2,
{
    let mut cfg: Cfg<Stmt> = Cfg::new_empty();
    cfg.entry = 0;
    cfg.exit = 1;
    proof {
        assert(cfg@.nodes =~= Seq::empty());
    }
    let _entry: NodeId = cfg.add_node(fn_node.start_line());
    let _exit: NodeId = cfg.add_node(fn_node.end_line());
    cfg
}

/// Ends `current` with a return and opens a node for what stands behind it.
pub fn add_return(
    cfg: &mut Cfg<Stmt>,
    stmt: &SyntaxNode,
    current: NodeId,
    value: Option<String>,
) -> (next: NodeId)
    requires
        old(cfg).open_at(current),
    ensures
        (final(cfg)@, next) == returned(
            old(cfg)@,
            *stmt,
            current,
            text::optional(value),
        ),
        final(cfg).open_at(next),
        final(cfg).nodes@.len() >= old(cfg).nodes@.len(),
{
    let exit: NodeId = cfg.exit;
    cfg.add_stmt(current, Stmt::Return { value });
    cfg.add_edge(current, exit, EdgeKind::Fallthrough);
    cfg.add_node(stmt.start_line())
}

/// Opens the true arm of a conditional.
pub fn open_true_arm(
    cfg: &mut Cfg<Stmt>,
    stmt: &SyntaxNode,
    current: NodeId,
    guard: &Option<(String, GuardOp)>,
) -> (start: NodeId)
    requires
        old(cfg).open_at(current),
    ensures
        (final(cfg)@, start) == true_arm(old(cfg)@, *stmt, current, guard_view(*guard)),
        final(cfg).open_at(start),
        final(cfg).nodes@.len() > old(cfg).nodes@.len(),
{
    let start: NodeId = cfg.add_node(stmt.start_line());
    cfg.add_edge(current, start, EdgeKind::True);
    if let Some((var, op)) = guard {
        cfg.add_stmt(
            start,
            Stmt::Guard { var: var.clone(), op: *op, against: GuardAgainst::Nil },
        );
    }
    start
}

/// Opens the false arm of a conditional.
pub fn open_false_arm(
    cfg: &mut Cfg<Stmt>,
    stmt: &SyntaxNode,
    current: NodeId,
    guard: &Option<(String, GuardOp)>,
) -> (start: NodeId)
    requires
        old(cfg).open_at(current),
    ensures
        (final(cfg)@, start) == false_arm(old(cfg)@, *stmt, current, guard_view(*guard)),
        final(cfg).open_at(start),
        final(cfg).nodes@.len() > old(cfg).nodes@.len(),
{
    let start: NodeId = cfg.add_node(stmt.start_line());
    cfg.add_edge(current, start, EdgeKind::False);
    if let Some((var, GuardOp::Equal)) = guard {
        cfg.add_stmt(
            start,
            Stmt::Guard {
                var: var.clone(),
                op: GuardOp::NotEqual,
                against: GuardAgainst::Nil,
            },
        );
    }
    start
}

/// Opens the false arm of a conditional without an alternative, where the failed
/// condition says something of a variable.
pub fn open_skipped_arm(
    cfg: &mut Cfg<Stmt>,
    stmt: &SyntaxNode,
    current: NodeId,
    guard: &Option<(String, GuardOp)>,
) -> (start: Option<NodeId>)
    requires
        old(cfg).open_at(current),
    ensures
        (final(cfg)@, start) == skipped_arm(old(cfg)@, *stmt, current, guard_view(*guard)),
        final(cfg).open_at(current),
        start matches Some(id) ==> id < final(cfg).nodes@.len(),
        final(cfg).nodes@.len() >= old(cfg).nodes@.len(),
{
    match guard {
        Some((_, GuardOp::Equal)) => Some(open_false_arm(cfg, stmt, current, guard)),
        _ => None,
    }
}

/// Opens the node where the arms of a conditional meet.
pub fn join_arms(
    cfg: &mut Cfg<Stmt>,
    stmt: &SyntaxNode,
    current: NodeId,
    true_end: NodeId,
    false_end: Option<NodeId>,
) -> (join: NodeId)
    requires
        old(cfg).open_at(current),
        true_end < old(cfg).nodes@.len(),
        false_end matches Some(end) ==> end < old(cfg).nodes@.len(),
    ensures
        (final(cfg)@, join) == joined(old(cfg)@, *stmt, current, true_end, false_end),
        final(cfg).open_at(join),
        final(cfg).nodes@.len() > old(cfg).nodes@.len(),
{
    let join: NodeId = cfg.add_node(stmt.end_line());
    cfg.add_edge(true_end, join, EdgeKind::Fallthrough);
    match false_end {
        Some(end) => cfg.add_edge(end, join, EdgeKind::Fallthrough),
        None => cfg.add_edge(current, join, EdgeKind::False),
    }
    join
}

/// Opens the body of a loop whose header is `header`.
pub fn open_loop_body(cfg: &mut Cfg<Stmt>, stmt: &SyntaxNode, header: NodeId) -> (start: NodeId)
    requires
        old(cfg).open_at(header),
    ensures
        (final(cfg)@, start) == loop_body(old(cfg)@, *stmt, header),
        final(cfg).open_at(start),
        final(cfg).nodes@.len() > old(cfg).nodes@.len(),
{
    let start: NodeId = cfg.add_node(stmt.start_line());
    cfg.add_edge(header, start, EdgeKind::True);
    start
}

/// Closes a loop and opens the node behind it.
pub fn close_loop(cfg: &mut Cfg<Stmt>, stmt: &SyntaxNode, header: NodeId, body_end: NodeId) -> (after:
    NodeId)
    requires
        old(cfg).open_at(header),
        body_end < old(cfg).nodes@.len(),
    ensures
        (final(cfg)@, after) == looped(old(cfg)@, *stmt, header, body_end),
        final(cfg).open_at(after),
        final(cfg).nodes@.len() > old(cfg).nodes@.len(),
{
    cfg.add_edge(body_end, header, EdgeKind::Loop);
    let after: NodeId = cfg.add_node(stmt.end_line());
    cfg.add_edge(header, after, EdgeKind::False);
    after
}

/// The texts of the identifiers among named nodes, in order.
pub open spec fn identifiers_of(nodes: Seq<SyntaxNode>) -> Seq<Seq<char>>
    decreases nodes.len(),
{
    if nodes.len() == 0 {
        Seq::empty()
    } else {
        let earlier = identifiers_of(nodes.drop_last());
        if nodes.last().named && nodes.last().kind@ == "identifier"@ {
            earlier.push(nodes.last().trimmed_text())
        } else {
            earlier
        }
    }
}

/// The identifiers among a call's arguments, in order.
pub open spec fn identifier_args(call: SyntaxNode) -> Seq<Seq<char>> {
    if call.has_role("arguments"@) {
        identifiers_of(call.role("arguments"@).children@)
    } else {
        Seq::empty()
    }
}

/// The identifiers among a call's arguments, in order.
pub fn call_arg_identifiers(call: &SyntaxNode) -> (args: Vec<String>)
    ensures
        text::views(args@) == identifier_args(*call),
{
    let mut args: Vec<String> = Vec::new();
    proof {
        assert(text::views(args@) =~= Seq::<Seq<char>>::empty());
    }
    if let Some(list) = call.child_by_role("arguments") {
        let mut i: usize = 0;
        proof {
            assert(list.children@.take(0) =~= Seq::empty());
        }
        while i < list.children.len()
            invariant
                0 <= i <= list.children@.len(),
                text::views(args@) == identifiers_of(list.children@.take(i as int)),
            decreases list.children.len() - i,
        {
            proof {
                assert(list.children@.take(i + 1).drop_last() =~= list.children@.take(i as int));
                assert(list.children@.take(i + 1).last() == list.children@[i as int]);
            }
            if list.children[i].named && list.children[i].is_kind("identifier") {
                let name: String = list.children[i].trimmed().to_owned();
                proof {
                    text::lemma_views_push(args@, name);
                }
                args.push(name);
            }
            i += 1;
        }
        proof {
            assert(list.children@.take(list.children@.len() as int) =~= list.children@);
        }
    }
    args
}

/// The name in a function's `name` role.
pub open spec fn own_name(fn_node: SyntaxNode) -> Option<Seq<char>> {
    if fn_node.has_role("name"@) {
        Some(fn_node.role("name"@).trimmed_text())
    } else {
        None
    }
}

/// The name in a function's `name` role.
pub fn find_own_name(fn_node: &SyntaxNode) -> (name: Option<String>)
    ensures
        text::optional(name) == own_name(*fn_node),
{
    match fn_node.child_by_role("name") {
        Some(name) => Some(name.trimmed().to_owned()),
        None => None,
    }
}

/// The first named child, if it is an identifier.
pub open spec fn first_identifier(stmt: SyntaxNode) -> Option<Seq<char>> {
    if stmt.has_named(0) && stmt.named_child(0).kind@ == "identifier"@ {
        Some(stmt.named_child(0).trimmed_text())
    } else {
        None
    }
}

/// The first named child, if it is an identifier.
pub fn find_first_identifier(stmt: &SyntaxNode) -> (value: Option<String>)
    ensures
        text::optional(value) == first_identifier(*stmt),
{
    match stmt.named_child_at(0) {
        Some(value) => {
            if value.is_kind("identifier") {
                Some(value.trimmed().to_owned())
            } else {
                None
            }
        },
        None => None,
    }
}

/// A return stands in the node that it ends, and leads to the exit.
pub proof fn a_return_leads_to_the_exit(
    g: GraphView,
    stmt: SyntaxNode,
    current: NodeId,
    value: Option<Seq<char>>,
)
    requires
        current < g.nodes.len(),
    ensures
        ({
            let (h, next) = returned(g, stmt, current, value);
            &&& cfg::grown(g, h)
            &&& next < h.nodes.len()
            &&& cfg::holds_at(h, current as int, StmtView::Return { value })
            &&& cfg::joins_nodes(h, current, g.exit, EdgeKind::Fallthrough)
            &&& h.edges.len() == g.edges.len() + 1
        }),
{
    let ret = StmtView::Return { value };
    let a = g.with_stmt(current, ret);
    let b = a.with_edge(current, g.exit, EdgeKind::Fallthrough);
    let c = b.with_node(stmt.first_line());
    cfg::lemma_steps_grow(g, 0, current, ret, current, EdgeKind::True);
    cfg::lemma_steps_grow(a, 0, current, ret, g.exit, EdgeKind::Fallthrough);
    cfg::lemma_steps_grow(b, stmt.first_line(), current, ret, current, EdgeKind::True);
    cfg::lemma_grown_twice(g, a, b);
    cfg::lemma_grown_twice(g, b, c);
    cfg::lemma_grown_keeps(a, b, current as int, ret, (current, g.exit, EdgeKind::Fallthrough));
    cfg::lemma_grown_keeps(b, c, current as int, ret, (current, g.exit, EdgeKind::Fallthrough));
}

/// The arms of a conditional begin in nodes of their own, over a true and a false
/// edge from where the conditional stands. The true arm knows what the condition
/// says; the false arm knows that a variable which was compared with `==` is not
/// nil.
pub proof fn arms_begin_behind_their_edges(
    g: GraphView,
    stmt: SyntaxNode,
    current: NodeId,
    guard: Option<(Seq<char>, GuardOp)>,
)
    requires
        current < g.nodes.len(),
    ensures
        ({
            let (h, start) = true_arm(g, stmt, current, guard);
            &&& cfg::grown(g, h)
            &&& h.nodes.len() == g.nodes.len() + 1
            &&& start < h.nodes.len()
            &&& g.nodes.len() <= NodeId::MAX ==> start == g.nodes.len()
            &&& cfg::joins_nodes(h, current, start, EdgeKind::True)
            &&& guard matches Some((var, op)) ==> cfg::holds_at(
                h,
                start as int,
                StmtView::Guard { var, op, against: GuardAgainst::Nil },
            )
        }),
        ({
            let (h, start) = false_arm(g, stmt, current, guard);
            &&& cfg::grown(g, h)
            &&& h.nodes.len() == g.nodes.len() + 1
            &&& start < h.nodes.len()
            &&& g.nodes.len() <= NodeId::MAX ==> start == g.nodes.len()
            &&& cfg::joins_nodes(h, current, start, EdgeKind::False)
            &&& guard matches Some((var, GuardOp::Equal)) ==> cfg::holds_at(
                h,
                start as int,
                StmtView::Guard { var, op: GuardOp::NotEqual, against: GuardAgainst::Nil },
            )
        }),
        ({
            let (h, skipped) = skipped_arm(g, stmt, current, guard);
            &&& cfg::grown(g, h)
            &&& skipped matches Some(start) ==> start < h.nodes.len() && cfg::joins_nodes(
                h,
                current,
                start,
                EdgeKind::False,
            )
            &&& guard matches Some((var, GuardOp::Equal)) ==> (skipped matches Some(start)
                && cfg::holds_at(
                h,
                start as int,
                StmtView::Guard { var, op: GuardOp::NotEqual, against: GuardAgainst::Nil },
            ))
        }),
{
    let start = g.next_id();
    let a = g.with_node(stmt.first_line());
    let t = a.with_edge(current, start, EdgeKind::True);
    let f = a.with_edge(current, start, EdgeKind::False);
    let said = match guard {
        Some((var, op)) => StmtView::Guard { var, op, against: GuardAgainst::Nil },
        None => StmtView::Return { value: None },
    };
    let denied = match guard {
        Some((var, op)) => StmtView::Guard { var, op: GuardOp::NotEqual, against: GuardAgainst::Nil },
        None => StmtView::Return { value: None },
    };
    cfg::lemma_steps_grow(g, stmt.first_line(), current, said, current, EdgeKind::True);
    cfg::lemma_steps_grow(a, 0, current, said, start, EdgeKind::True);
    cfg::lemma_steps_grow(a, 0, current, said, start, EdgeKind::False);
    cfg::lemma_grown_twice(g, a, t);
    cfg::lemma_grown_twice(g, a, f);
    cfg::lemma_steps_grow(t, 0, start, said, start, EdgeKind::True);
    cfg::lemma_steps_grow(f, 0, start, denied, start, EdgeKind::True);
    let ts = t.with_stmt(start, said);
    let fs = f.with_stmt(start, denied);
    cfg::lemma_grown_twice(g, t, ts);
    cfg::lemma_grown_twice(g, f, fs);
    cfg::lemma_grown_keeps(t, ts, 0, said, (current, start, EdgeKind::True));
    cfg::lemma_grown_keeps(f, fs, 0, denied, (current, start, EdgeKind::False));
}

/// The arms of a conditional meet in a node of its own. Where there is no false
/// arm, a false edge leads there from where the conditional stands.
pub proof fn arms_meet(
    g: GraphView,
    stmt: SyntaxNode,
    current: NodeId,
    true_end: NodeId,
    false_end: Option<NodeId>,
)
    ensures
        ({
            let (h, join) = joined(g, stmt, current, true_end, false_end);
            &&& cfg::grown(g, h)
            &&& join < h.nodes.len()
            &&& g.nodes.len() <= NodeId::MAX ==> join == g.nodes.len()
            &&& cfg::joins_nodes(h, true_end, join, EdgeKind::Fallthrough)
            &&& false_end matches Some(end) ==> cfg::joins_nodes(
                h,
                end,
                join,
                EdgeKind::Fallthrough,
            )
            &&& false_end is None ==> cfg::joins_nodes(h, current, join, EdgeKind::False)
            &&& h.edges.len() == g.edges.len() + 2
        }),
{
    let join = g.next_id();
    let a = g.with_node(stmt.last_line());
    let b = a.with_edge(true_end, join, EdgeKind::Fallthrough);
    let none = StmtView::Return { value: None };
    cfg::lemma_steps_grow(g, stmt.last_line(), current, none, join, EdgeKind::True);
    cfg::lemma_steps_grow(a, 0, true_end, none, join, EdgeKind::Fallthrough);
    cfg::lemma_grown_twice(g, a, b);
    let (from, kind) = match false_end {
        Some(end) => (end, EdgeKind::Fallthrough),
        None => (current, EdgeKind::False),
    };
    cfg::lemma_steps_grow(b, 0, from, none, join, kind);
    let c = b.with_edge(from, join, kind);
    cfg::lemma_grown_twice(g, b, c);
    cfg::lemma_grown_keeps(b, c, 0, none, (true_end, join, EdgeKind::Fallthrough));
}

/// The body of a loop begins in a node of its own over a true edge from the
/// header; its end leads back to the header; a false edge leads from the header to
/// what stands behind the loop.
pub proof fn loops_lead_back(g: GraphView, stmt: SyntaxNode, header: NodeId, body_end: NodeId)
    requires
        header < g.nodes.len(),
    ensures
        ({
            let (h, start) = loop_body(g, stmt, header);
            &&& cfg::grown(g, h)
            &&& h.nodes.len() == g.nodes.len() + 1
            &&& start < h.nodes.len()
            &&& g.nodes.len() <= NodeId::MAX ==> start == g.nodes.len()
            &&& cfg::joins_nodes(h, header, start, EdgeKind::True)
        }),
        ({
            let (h, after) = looped(g, stmt, header, body_end);
            &&& cfg::grown(g, h)
            &&& after < h.nodes.len()
            &&& g.nodes.len() <= NodeId::MAX ==> after == g.nodes.len()
            &&& cfg::joins_nodes(h, body_end, header, EdgeKind::Loop)
            &&& cfg::joins_nodes(h, header, after, EdgeKind::False)
            &&& h.edges.len() == g.edges.len() + 2
        }),
{
    let none = StmtView::Return { value: None };
    let start = g.next_id();
    let a = g.with_node(stmt.first_line());
    cfg::lemma_steps_grow(g, stmt.first_line(), header, none, start, EdgeKind::True);
    cfg::lemma_steps_grow(a, 0, header, none, start, EdgeKind::True);
    cfg::lemma_grown_twice(g, a, a.with_edge(header, start, EdgeKind::True));
    let b = g.with_edge(body_end, header, EdgeKind::Loop);
    let after = b.next_id();
    let c = b.with_node(stmt.last_line());
    let d = c.with_edge(header, after, EdgeKind::False);
    cfg::lemma_steps_grow(g, 0, body_end, none, header, EdgeKind::Loop);
    cfg::lemma_steps_grow(b, stmt.last_line(), header, none, header, EdgeKind::Loop);
    cfg::lemma_steps_grow(c, 0, header, none, after, EdgeKind::False);
    cfg::lemma_grown_twice(g, b, c);
    cfg::lemma_grown_twice(g, c, d);
    cfg::lemma_grown_keeps(b, c, 0, none, (body_end, header, EdgeKind::Loop));
    cfg::lemma_grown_keeps(c, d, 0, none, (body_end, header, EdgeKind::Loop));
}

/// `out` is what the nodes say that say something, in their order: `at` gives the
/// places of those nodes.
pub open spec fn picked_at(
    nodes: Seq<SyntaxNode>,
    says: spec_fn(SyntaxNode) -> Option<Seq<char>>,
    out: Seq<Seq<char>>,
    at: Seq<int>,
) -> bool {
    &&& at.len() == out.len()
    &&& forall|k: int|
        0 <= k < at.len() ==> 0 <= #[trigger] at[k] < nodes.len() && says(nodes[at[k]]) == Some(
            out[k],
        )
    &&& forall|j: int, k: int| 0 <= j < k < at.len() ==> #[trigger] at[j] < #[trigger] at[k]
    &&& forall|i: int| 0 <= i < nodes.len() && says(#[trigger] nodes[i]) is Some ==> at.contains(i)
}

/// `out` is what the nodes say that say something, in their order.
pub open spec fn picked(
    nodes: Seq<SyntaxNode>,
    says: spec_fn(SyntaxNode) -> Option<Seq<char>>,
    out: Seq<Seq<char>>,
) -> bool {
    exists|at: Seq<int>| #[trigger] picked_at(nodes, says, out, at)
}

/// What a node more, that says something or nothing, does to what is picked.
pub proof fn lemma_picked_push(
    nodes: Seq<SyntaxNode>,
    node: SyntaxNode,
    says: spec_fn(SyntaxNode) -> Option<Seq<char>>,
    out: Seq<Seq<char>>,
)
    requires
        picked(nodes, says, out),
    ensures
        says(node) matches Some(s) ==> picked(nodes.push(node), says, out.push(s)),
        says(node) is None ==> picked(nodes.push(node), says, out),
{
    let at = choose|at: Seq<int>| #[trigger] picked_at(nodes, says, out, at);
    let all = nodes.push(node);
    let n = nodes.len() as int;
    assert forall|i: int| 0 <= i < n implies all[i] == #[trigger] nodes[i] by {}
    if let Some(s) = says(node) {
        let to = at.push(n);
        assert forall|k: int| 0 <= k < to.len() implies 0 <= #[trigger] to[k] < all.len() && says(
            all[to[k]],
        ) == Some(out.push(s)[k]) by {
            if k < at.len() {
                assert(to[k] == at[k]);
            }
        }
        assert forall|j: int, k: int| 0 <= j < k < to.len() implies #[trigger] to[j]
            < #[trigger] to[k] by {
            assert(to[j] == at[j]);
            if k < at.len() {
                assert(to[k] == at[k]);
            }
        }
        assert forall|i: int| 0 <= i < all.len() && says(#[trigger] all[i]) is Some implies to.contains(
            i,
        ) by {
            if i < n {
                assert(says(nodes[i]) is Some);
                assert(at.contains(i));
                let k = choose|k: int| 0 <= k < at.len() && at[k] == i;
                assert(to[k] == i);
            } else {
                assert(to[at.len() as int] == i);
            }
        }
        assert(picked_at(all, says, out.push(s), to));
    } else {
        assert forall|i: int| 0 <= i < all.len() && says(#[trigger] all[i]) is Some implies at.contains(
            i,
        ) by {
            assert(says(nodes[i]) is Some);
        }
        assert(picked_at(all, says, out, at));
    }
}

/// Of no nodes nothing is picked.
pub proof fn lemma_picked_none(says: spec_fn(SyntaxNode) -> Option<Seq<char>>)
    ensures
        picked(Seq::empty(), says, Seq::empty()),
{
    assert(picked_at(Seq::empty(), says, Seq::empty(), Seq::<int>::empty()));
}

/// The arguments of a call are the identifiers among the named children of its
/// argument list, in order.
pub proof fn arguments_are_identifiers(call: SyntaxNode)
    ensures
        call.has_role("arguments"@) ==> picked(
            call.role("arguments"@).children@,
            |n: SyntaxNode|
                if n.named && n.kind@ == "identifier"@ {
                    Some(text::trimmed(n.text@))
                } else {
                    None
                },
            identifier_args(call),
        ),
        !call.has_role("arguments"@) ==> identifier_args(call).len() == 0,
{
    if call.has_role("arguments"@) {
        lemma_identifiers(call.role("arguments"@).children@);
    }
}

proof fn lemma_identifiers(nodes: Seq<SyntaxNode>)
    ensures
        picked(
            nodes,
            |n: SyntaxNode|
                if n.named && n.kind@ == "identifier"@ {
                    Some(text::trimmed(n.text@))
                } else {
                    None
                },
            identifiers_of(nodes),
        ),
    decreases nodes.len(),
{
    let says = |n: SyntaxNode|
        if n.named && n.kind@ == "identifier"@ {
            Some(text::trimmed(n.text@))
        } else {
            None
        };
    if nodes.len() == 0 {
        lemma_picked_none(says);
        assert(nodes =~= Seq::empty());
        assert(identifiers_of(nodes) =~= Seq::<Seq<char>>::empty());
    } else {
        lemma_identifiers(nodes.drop_last());
        lemma_picked_push(nodes.drop_last(), nodes.last(), says, identifiers_of(nodes.drop_last()));
        assert(nodes.drop_last().push(nodes.last()) =~= nodes);
    }
}

/// What a comparison asks goes by its operator; `!=` counts before `==`.
pub proof fn guards_go_by_their_operator(source: Seq<char>)
    ensures
        text::has(source, "!="@) ==> guard_op(source) == Some(GuardOp::NotEqual),
        text::has(source, "=="@) && !text::has(source, "!="@) ==> guard_op(source) == Some(
            GuardOp::Equal,
        ),
        !text::has(source, "=="@) && !text::has(source, "!="@) ==> guard_op(source) is None,
{
}

/// The name of a function, and the identifier that a return gives back.
pub proof fn names_and_first_identifiers(node: SyntaxNode)
    ensures
        node.has_role("name"@) ==> own_name(node) == Some(text::trimmed(node.role("name"@).text@)),
        !node.has_role("name"@) ==> own_name(node) is None,
        node.has_named(0) && node.named_child(0).kind@ == "identifier"@ ==> first_identifier(node)
            == Some(text::trimmed(node.named_child(0).text@)),
        !node.has_named(0) || node.named_child(0).kind@ != "identifier"@ ==> first_identifier(node)
            is None,
{
}

/// Where a condition fails that says nothing of a variable, or compares it with
/// `!=`, nothing is known: the false arm begins empty, and there is none without an
/// alternative.
pub proof fn other_failed_conditions_say_nothing(
    g: GraphView,
    stmt: SyntaxNode,
    current: NodeId,
    guard: Option<(Seq<char>, GuardOp)>,
)
    requires
        current < g.nodes.len(),
        g.nodes.len() <= NodeId::MAX,
        guard matches Some((_, op)) ==> op == GuardOp::NotEqual,
    ensures
        ({
            let (h, start) = false_arm(g, stmt, current, guard);
            h.nodes[start as int].stmts.len() == 0 && h.edges == g.edges.push(
                (current, start, EdgeKind::False),
            )
        }),
        skipped_arm(g, stmt, current, guard) == (g, None::<NodeId>),
{
}

/// A condition that says nothing of a variable leaves the true arm empty.
pub proof fn conditions_that_say_nothing_leave_the_arm_empty(
    g: GraphView,
    stmt: SyntaxNode,
    current: NodeId,
)
    requires
        current < g.nodes.len(),
        g.nodes.len() <= NodeId::MAX,
    ensures
        ({
            let (h, start) = true_arm(g, stmt, current, None);
            h.nodes[start as int].stmts.len() == 0 && h.edges == g.edges.push(
                (current, start, EdgeKind::True),
            )
        }),
{
}

/// A function's graph begins with two nodes, its entry and its exit, on its first
/// and its last line, and without an edge.
pub proof fn graphs_begin_with_two_nodes(fn_node: SyntaxNode)
    ensures
        opened(fn_node).nodes.len() == 2,
        opened(fn_node).entry == 0,
        opened(fn_node).exit == 1,
        opened(fn_node).edges.len() == 0,
        opened(fn_node).nodes[0].stmts.len() == 0,
        opened(fn_node).nodes[1].stmts.len() == 0,
        opened(fn_node).nodes[0].source_line == fn_node.first_line(),
        opened(fn_node).nodes[1].source_line == fn_node.last_line(),
{
}

} // verus!
