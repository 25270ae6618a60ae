//! Lowering of Java methods and constructors.

use vstd::prelude::*;

use crate::dataflow::cfg;
use crate::dataflow::cfg::{
    Cfg, EdgeKind, GraphView, GuardAgainst, GuardOp, NodeId, RhsShape, RhsView, Stmt, StmtView,
};
use crate::dataflow::lower::shape;
use crate::syntax;
use crate::syntax::SyntaxNode;
use crate::text;

verus! {

/// What an expression on the right of an assignment is.
pub open spec fn rhs_of(node: SyntaxNode) -> RhsView {
    if node.kind@ == "null_literal"@ {
        RhsView::NilLiteral
    } else if node.kind@ == "identifier"@ {
        RhsView::Var(node.trimmed_text())
    } else {
        RhsView::Unknown
    }
}

/// The name that a call calls: `name`, or `object.name` where the object is an
/// identifier.
pub open spec fn call_name(call: SyntaxNode) -> Option<Seq<char>> {
    if !call.has_role("name"@) {
        None
    } else if call.has_role("object"@) && call.role("object"@).kind@ == "identifier"@ {
        Some(call.role("object"@).trimmed_text() + "."@ + call.role("name"@).trimmed_text())
    } else {
        Some(call.role("name"@).trimmed_text())
    }
}

/// What a local variable declaration lowers to. Only a declaration of one
/// variable is modelled; without an initializer its value is unknown.
pub open spec fn declaration_stmt(node: SyntaxNode) -> StmtView {
    let i = syntax::named_kind_index(node.children@, "variable_declarator"@) as int;
    if syntax::named_kind_count(node.children@, "variable_declarator"@) != 1 || i
        >= node.children@.len() || !node.children@[i].has_role("name"@) {
        shape::other(node)
    } else {
        let declarator = node.children@[i];
        let lhs = declarator.role("name"@).trimmed_text();
        if !declarator.has_role("value"@) {
            StmtView::Assign { lhs, rhs: RhsView::Unknown }
        } else {
            let value = declarator.role("value"@);
            if value.kind@ == "method_invocation"@ {
                match call_name(value) {
                    Some(name) => shape::call_of(name, shape::identifier_args(value), Some(lhs)),
                    None => StmtView::Assign { lhs, rhs: RhsView::Unknown },
                }
            } else {
                StmtView::Assign { lhs, rhs: rhs_of(value) }
            }
        }
    }
}

/// What an assignment lowers to.
pub open spec fn assign_stmt(node: SyntaxNode) -> StmtView {
    if !node.has_role("left"@) || !node.has_role("right"@) || node.role("left"@).kind@
        != "identifier"@ {
        shape::other(node)
    } else {
        let lhs = node.role("left"@).trimmed_text();
        let right = node.role("right"@);
        if right.kind@ == "method_invocation"@ && call_name(right) is Some {
            shape::call_of(call_name(right)->0, shape::identifier_args(right), Some(lhs))
        } else {
            StmtView::Assign { lhs, rhs: rhs_of(right) }
        }
    }
}

/// What an expression that stands as a statement lowers to.
pub open spec fn expression_stmt(stmt: SyntaxNode) -> StmtView {
    if !stmt.has_named(0) {
        shape::other(stmt)
    } else {
        let inner = stmt.named_child(0);
        if inner.kind@ == "assignment_expression"@ {
            assign_stmt(inner)
        } else if inner.kind@ == "method_invocation"@ && call_name(inner) is Some {
            shape::call_of(call_name(inner)->0, shape::identifier_args(inner), None)
        } else {
            shape::other(stmt)
        }
    }
}

/// The comparison inside a condition's parentheses; the condition itself where
/// it has none.
pub open spec fn bare_condition(cond: SyntaxNode) -> Option<SyntaxNode> {
    if cond.kind@ == "parenthesized_expression"@ {
        if cond.has_named(0) {
            Some(cond.named_child(0))
        } else {
            None
        }
    } else {
        Some(cond)
    }
}

/// What a comparison says of a variable: `var != null`, `var == null` or
/// either the other way round.
pub open spec fn null_comparison(cond: SyntaxNode) -> Option<(Seq<char>, GuardOp)> {
    if cond.kind@ == "binary_expression"@ && cond.has_role("left"@) && cond.has_role("right"@) {
        let left = cond.role("left"@);
        let right = cond.role("right"@);
        if left.kind@ == "identifier"@ && right.kind@ == "null_literal"@ {
            match shape::guard_op(cond.trimmed_text()) {
                Some(op) => Some((left.trimmed_text(), op)),
                None => None,
            }
        } else if left.kind@ == "null_literal"@ && right.kind@ == "identifier"@ {
            match shape::guard_op(cond.trimmed_text()) {
                Some(op) => Some((right.trimmed_text(), op)),
                None => None,
            }
        } else {
            None
        }
    } else {
        None
    }
}

/// What a condition, behind its parentheses, says of a variable.
pub open spec fn null_guard(cond: SyntaxNode) -> Option<(Seq<char>, GuardOp)> {
    match bare_condition(cond) {
        Some(bare) => null_comparison(bare),
        None => None,
    }
}

/// The graph with a block lowered into it, and the node that is open behind it.
pub open spec fn block(g: GraphView, node: SyntaxNode, current: NodeId) -> (GraphView, NodeId)
    decreases node, 0nat,
{
    stmts(g, node.children@, current)
}

/// The graph with the named nodes lowered into it as statements, in order.
pub open spec fn stmts(g: GraphView, nodes: Seq<SyntaxNode>, current: NodeId) -> (GraphView, NodeId)
    decreases nodes, 0nat,
{
    if nodes.len() == 0 {
        (g, current)
    } else {
        let (g, current) = stmts(g, nodes.drop_last(), current);
        if nodes.last().named {
            stmt(g, nodes.last(), current)
        } else {
            (g, current)
        }
    }
}

/// The graph with a statement lowered into it, and the node that is open
/// behind it.
pub open spec fn stmt(g: GraphView, node: SyntaxNode, current: NodeId) -> (GraphView, NodeId)
    decreases node, 1nat,
{
    if node.kind@ == "local_variable_declaration"@ {
        (g.with_stmt(current, declaration_stmt(node)), current)
    } else if node.kind@ == "expression_statement"@ {
        (g.with_stmt(current, expression_stmt(node)), current)
    } else if node.kind@ == "return_statement"@ {
        shape::returned(g, node, current, shape::first_identifier(node))
    } else if node.kind@ == "if_statement"@ {
        conditional(g, node, current)
    } else if node.kind@ == "for_statement"@ || node.kind@ == "while_statement"@ || node.kind@
        == "enhanced_for_statement"@ {
        any_loop(g, node, current)
    } else {
        (g.with_stmt(current, shape::other(node)), current)
    }
}

/// The graph with a block or a single statement lowered into it.
pub open spec fn arm(g: GraphView, node: SyntaxNode, current: NodeId) -> (GraphView, NodeId)
    decreases node, 2nat,
{
    if node.kind@ == "block"@ {
        block(g, node, current)
    } else {
        stmt(g, node, current)
    }
}

/// The graph with a conditional lowered into it. Each arm starts with what
/// the condition says of a variable there.
pub open spec fn conditional(g: GraphView, node: SyntaxNode, current: NodeId) -> (GraphView, NodeId)
    decreases node, 0nat,
{
    let g = if node.has_role("condition"@) {
        g.with_stmt(current, StmtView::Other("if "@ + node.role("condition"@).trimmed_text()))
    } else {
        g
    };
    let guard = if node.has_role("condition"@) {
        null_guard(node.role("condition"@))
    } else {
        None
    };
    let (g, true_start) = shape::true_arm(g, node, current, guard);
    let (g, true_end) = if node.has_role("consequence"@) {
        arm(g, node.role("consequence"@), true_start)
    } else {
        (g, true_start)
    };
    if node.has_role("alternative"@) {
        let (g, false_start) = shape::false_arm(g, node, current, guard);
        let (g, false_end) = arm(g, node.role("alternative"@), false_start);
        shape::joined(g, node, current, true_end, Some(false_end))
    } else {
        let (g, skipped) = shape::skipped_arm(g, node, current, guard);
        shape::joined(g, node, current, true_end, skipped)
    }
}

/// The graph with a loop lowered into it. What its header holds is not
/// modelled.
pub open spec fn any_loop(g: GraphView, node: SyntaxNode, current: NodeId) -> (GraphView, NodeId)
    decreases node, 0nat,
{
    let (g, start) = shape::loop_body(g, node, current);
    let (g, end) = if node.has_role("body"@) {
        block(g, node.role("body"@), start)
    } else {
        (g, start)
    };
    shape::looped(g, node, current, end)
}

/// The graph of a function.
pub open spec fn function(fn_node: SyntaxNode) -> GraphView {
    let g = shape::opened(fn_node);
    let (g, end) = if fn_node.has_role("body"@) {
        block(g, fn_node.role("body"@), 0)
    } else {
        (g, 0)
    };
    g.with_edge(end, 1, EdgeKind::Fallthrough)
}

/// The function's own bare name.
pub fn function_name(fn_node: &SyntaxNode) -> (name: Option<String>)
    ensures
        text::optional(name) == shape::own_name(*fn_node),
{
    shape::find_own_name(fn_node)
}

fn classify_rhs(node: &SyntaxNode) -> (rhs: RhsShape)
    ensures
        rhs@ == rhs_of(*node),
{
    if node.is_kind("null_literal") {
        RhsShape::NilLiteral
    } else if node.is_kind("identifier") {
        RhsShape::Var(node.trimmed().to_owned())
    } else {
        RhsShape::Unknown
    }
}

fn call_target_name(call: &SyntaxNode) -> (name: Option<String>)
    ensures
        text::optional(name) == call_name(*call),
{
    match call.child_by_role("name") {
        Some(name) => {
            if let Some(object) = call.child_by_role("object") {
                if object.is_kind("identifier") {
                    return Some(text::concat3(object.trimmed(), ".", name.trimmed()));
                }
            }
            Some(name.trimmed().to_owned())
        },
        None => None,
    }
}

fn lower_local_variable_declaration(node: &SyntaxNode) -> (stmt: Stmt)
    ensures
        stmt@ == declaration_stmt(*node),
{
    if node.count_named_of_kind("variable_declarator") != 1 {
        return shape::other_stmt(node);
    }
    let declarator: &SyntaxNode = match node.named_child_of_kind("variable_declarator") {
        Some(declarator) => declarator,
        None => {
            return shape::other_stmt(node);
        },
    };
    let lhs: String = match declarator.child_by_role("name") {
        Some(name) => name.trimmed().to_owned(),
        None => {
            return shape::other_stmt(node);
        },
    };
    match declarator.child_by_role("value") {
        Some(value) => {
            if value.is_kind("method_invocation") {
                match call_target_name(value) {
                    Some(name) => shape::call_stmt(
                        name,
                        shape::call_arg_identifiers(value),
                        Some(lhs),
                    ),
                    None => Stmt::Assign { lhs, rhs: RhsShape::Unknown },
                }
            } else {
                Stmt::Assign { lhs, rhs: classify_rhs(value) }
            }
        },
        None => Stmt::Assign { lhs, rhs: RhsShape::Unknown },
    }
}

fn lower_assignment_expression(node: &SyntaxNode) -> (stmt: Stmt)
    ensures
        stmt@ == assign_stmt(*node),
{
    match (node.child_by_role("left"), node.child_by_role("right")) {
        (Some(left), Some(right)) => {
            if !left.is_kind("identifier") {
                return shape::other_stmt(node);
            }
            let lhs: String = left.trimmed().to_owned();
            if right.is_kind("method_invocation") {
                if let Some(name) = call_target_name(right) {
                    return shape::call_stmt(name, shape::call_arg_identifiers(right), Some(lhs));
                }
            }
            Stmt::Assign { lhs, rhs: classify_rhs(right) }
        },
        _ => shape::other_stmt(node),
    }
}

fn lower_expression_statement(stmt: &SyntaxNode) -> (lowered: Stmt)
    ensures
        lowered@ == expression_stmt(*stmt),
{
    if let Some(inner) = stmt.named_child_at(0) {
        if inner.is_kind("assignment_expression") {
            return lower_assignment_expression(inner);
        }
        if inner.is_kind("method_invocation") {
            if let Some(name) = call_target_name(inner) {
                return shape::call_stmt(name, shape::call_arg_identifiers(inner), None);
            }
        }
    }
    shape::other_stmt(stmt)
}

fn recognize_null_comparison(cond: &SyntaxNode) -> (guard: Option<(String, GuardOp)>)
    ensures
        match guard {
            Some((var, op)) => null_comparison(*cond) == Some((var@, op)),
            None => null_comparison(*cond) is None,
        },
{
    if !cond.is_kind("binary_expression") {
        return None;
    }
    match (cond.child_by_role("left"), cond.child_by_role("right")) {
        (Some(left), Some(right)) => {
            let var: &SyntaxNode = if left.is_kind("identifier") && right.is_kind("null_literal") {
                left
            } else if left.is_kind("null_literal") && right.is_kind("identifier") {
                right
            } else {
                return None;
            };
            match shape::find_guard_op(cond.trimmed()) {
                Some(op) => Some((var.trimmed().to_owned(), op)),
                None => None,
            }
        },
        _ => None,
    }
}

fn recognize_null_guard(cond: &SyntaxNode) -> (guard: Option<(String, GuardOp)>)
    ensures
        match guard {
            Some((var, op)) => null_guard(*cond) == Some((var@, op)),
            None => null_guard(*cond) is None,
        },
{
    if cond.is_kind("parenthesized_expression") {
        match cond.named_child_at(0) {
            Some(inner) => recognize_null_comparison(inner),
            None => None,
        }
    } else {
        recognize_null_comparison(cond)
    }
}

/// Lowers a function to its graph. `fn_node` is a `method_declaration` or a
/// `constructor_declaration`.
/// Node 0 is the entry and node 1 the exit.
pub fn lower_function(fn_node: &SyntaxNode) -> (cfg: Cfg<Stmt>)
    ensures
        cfg@ == function(*fn_node),
        cfg.well_formed(),
{
    let mut cfg: Cfg<Stmt> = shape::open_function(fn_node);
    let end: NodeId = match fn_node.child_by_role("body") {
        Some(body) => lower_block(&mut cfg, body, 0),
        None => 0,
    };
    cfg.add_edge(end, 1, EdgeKind::Fallthrough);
    cfg
}

fn lower_block(cfg: &mut Cfg<Stmt>, node: &SyntaxNode, current: NodeId) -> (end: NodeId)
    requires
        old(cfg).open_at(current),
    ensures
        (final(cfg)@, end) == block(old(cfg)@, *node, current),
        final(cfg).open_at(end),
        final(cfg).nodes@.len() >= old(cfg).nodes@.len(),
    decreases node, 0nat,
{
    let ghost start = cfg@;
    let ghost count = cfg.nodes@.len();
    let mut now: NodeId = current;
    let mut i: usize = 0;
    proof {
        assert(node.children@.take(0) =~= Seq::empty());
    }
    while i < node.children.len()
        invariant
            0 <= i <= node.children@.len(),
            (cfg@, now) == stmts(start, node.children@.take(i as int), current),
            cfg.open_at(now),
            cfg.nodes@.len() >= count,
        decreases node.children.len() - i,
    {
        proof {
            assert(node.children@.take(i + 1).drop_last() =~= node.children@.take(i as int));
            assert(node.children@.take(i + 1).last() == node.children@[i as int]);
        }
        if node.children[i].named {
            now = lower_statement(cfg, &node.children[i], now);
        }
        i += 1;
    }
    proof {
        assert(node.children@.take(node.children@.len() as int) =~= node.children@);
    }
    now
}

fn lower_statement(cfg: &mut Cfg<Stmt>, node: &SyntaxNode, current: NodeId) -> (end: NodeId)
    requires
        old(cfg).open_at(current),
    ensures
        (final(cfg)@, end) == stmt(old(cfg)@, *node, current),
        final(cfg).open_at(end),
        final(cfg).nodes@.len() >= old(cfg).nodes@.len(),
    decreases node, 1nat,
{
    if node.is_kind("local_variable_declaration") {
        cfg.add_stmt(current, lower_local_variable_declaration(node));
        current
    } else if node.is_kind("expression_statement") {
        cfg.add_stmt(current, lower_expression_statement(node));
        current
    } else if node.is_kind("return_statement") {
        shape::add_return(cfg, node, current, shape::find_first_identifier(node))
    } else if node.is_kind("if_statement") {
        lower_if(cfg, node, current)
    } else if node.is_kind("for_statement") || node.is_kind("while_statement") || node.is_kind(
        "enhanced_for_statement",
    ) {
        lower_loop(cfg, node, current)
    } else {
        cfg.add_stmt(current, shape::other_stmt(node));
        current
    }
}

fn lower_arm(cfg: &mut Cfg<Stmt>, node: &SyntaxNode, current: NodeId) -> (end: NodeId)
    requires
        old(cfg).open_at(current),
    ensures
        (final(cfg)@, end) == arm(old(cfg)@, *node, current),
        final(cfg).open_at(end),
        final(cfg).nodes@.len() >= old(cfg).nodes@.len(),
    decreases node, 2nat,
{
    if node.is_kind("block") {
        lower_block(cfg, node, current)
    } else {
        lower_statement(cfg, node, current)
    }
}

fn lower_if(cfg: &mut Cfg<Stmt>, node: &SyntaxNode, current: NodeId) -> (end: NodeId)
    requires
        old(cfg).open_at(current),
    ensures
        (final(cfg)@, end) == conditional(old(cfg)@, *node, current),
        final(cfg).open_at(end),
        final(cfg).nodes@.len() >= old(cfg).nodes@.len(),
    decreases node, 0nat,
{
    let guard: Option<(String, GuardOp)> = match node.child_by_role("condition") {
        Some(cond) => {
            cfg.add_stmt(current, Stmt::Other(text::concat2("if ", cond.trimmed())));
            recognize_null_guard(cond)
        },
        None => None,
    };
    let true_start: NodeId = shape::open_true_arm(cfg, node, current, &guard);
    let true_end: NodeId = match node.child_by_role("consequence") {
        Some(consequence) => lower_arm(cfg, consequence, true_start),
        None => true_start,
    };
    match node.child_by_role("alternative") {
        Some(alternative) => {
            let false_start: NodeId = shape::open_false_arm(cfg, node, current, &guard);
            let false_end: NodeId = lower_arm(cfg, alternative, false_start);
            shape::join_arms(cfg, node, current, true_end, Some(false_end))
        },
        None => {
            let skipped: Option<NodeId> = shape::open_skipped_arm(cfg, node, current, &guard);
            shape::join_arms(cfg, node, current, true_end, skipped)
        },
    }
}

fn lower_loop(cfg: &mut Cfg<Stmt>, node: &SyntaxNode, current: NodeId) -> (end: NodeId)
    requires
        old(cfg).open_at(current),
    ensures
        (final(cfg)@, end) == any_loop(old(cfg)@, *node, current),
        final(cfg).open_at(end),
        final(cfg).nodes@.len() >= old(cfg).nodes@.len(),
    decreases node, 0nat,
{
    let start: NodeId = shape::open_loop_body(cfg, node, current);
    let end: NodeId = match node.child_by_role("body") {
        Some(body) => lower_block(cfg, body, start),
        None => start,
    };
    shape::close_loop(cfg, node, current, end)
}

/// A statement is lowered into the node `at`, and the outcome is part of `h`.
pub open spec fn placed_at(node: SyntaxNode, at: NodeId, h: GraphView) -> bool {
    exists|g: GraphView| at < g.nodes.len() && cfg::grown(#[trigger] stmt(g, node, at).0, h)
}

/// A statement is lowered into some node, and the outcome is part of `h`.
pub open spec fn placed(node: SyntaxNode, h: GraphView) -> bool {
    exists|at: NodeId| #[trigger] placed_at(node, at, h)
}

/// Every statement of a block is part of `h`, the first of them in the node `at`.
pub open spec fn block_placed(node: SyntaxNode, at: NodeId, h: GraphView) -> bool {
    forall|i: int|
        0 <= i < node.children@.len() && (#[trigger] node.children@[i]).named ==> placed(
            node.children@[i],
            h,
        ) && ((forall|j: int| 0 <= j < i ==> !(#[trigger] node.children@[j]).named) ==> placed_at(
            node.children@[i],
            at,
            h,
        ))
}

/// An arm, a block or a single statement, is part of `h` from the node `at` on.
pub open spec fn arm_placed(node: SyntaxNode, at: NodeId, h: GraphView) -> bool {
    &&& node.kind@ == "block"@ ==> block_placed(node, at, h)
    &&& node.kind@ != "block"@ ==> placed_at(node, at, h)
}

/// Where the arms of a conditional stand: behind a true and a false edge from one
/// node, and both are part of `h`. The true arm knows what the condition says
/// of a variable; the false arm knows that one which was compared with `==` is not
/// null.
pub open spec fn arms_placed(
    node: SyntaxNode,
    at: NodeId,
    yes: NodeId,
    no: NodeId,
    h: GraphView,
) -> bool {
    &&& cfg::joins_nodes(h, at, yes, EdgeKind::True)
    &&& node.has_role("consequence"@) ==> arm_placed(node.role("consequence"@), yes, h)
    &&& node.has_role("alternative"@) ==> cfg::joins_nodes(h, at, no, EdgeKind::False)
        && arm_placed(node.role("alternative"@), no, h)
    &&& node.has_role("condition"@) ==> (null_guard(node.role("condition"@)) matches Some((var, op))
        ==> cfg::holds_at(
        h,
        yes as int,
        StmtView::Guard { var, op, against: GuardAgainst::Nil },
    ) && (op == GuardOp::Equal ==> cfg::joins_nodes(h, at, no, EdgeKind::False) && cfg::holds_at(
        h,
        no as int,
        StmtView::Guard { var, op: GuardOp::NotEqual, against: GuardAgainst::Nil },
    )))
}

/// Where the body of a loop stands: behind a true edge from the header, which its
/// end leads back to and a false edge leads on from, and it is part of `h`.
pub open spec fn body_placed(
    node: SyntaxNode,
    header: NodeId,
    start: NodeId,
    end: NodeId,
    after: NodeId,
    h: GraphView,
) -> bool {
    &&& cfg::joins_nodes(h, header, start, EdgeKind::True)
    &&& cfg::joins_nodes(h, end, header, EdgeKind::Loop)
    &&& cfg::joins_nodes(h, header, after, EdgeKind::False)
    &&& node.has_role("body"@) ==> block_placed(node.role("body"@), start, h)
}

proof fn lemma_block(g: GraphView, node: SyntaxNode, current: NodeId)
    requires
        current < g.nodes.len(),
    ensures
        cfg::grown(g, block(g, node, current).0),
        block(g, node, current).1 < block(g, node, current).0.nodes.len(),
        forall|h: GraphView| #[trigger]
            cfg::grown(block(g, node, current).0, h) ==> block_placed(node, current, h),
    decreases node, 0nat,
{
    lemma_stmts(g, node.children@, current);
    assert forall|h: GraphView| #[trigger]
        cfg::grown(block(g, node, current).0, h) implies block_placed(node, current, h) by {
        assert forall|i: int|
            0 <= i < node.children@.len() && (#[trigger] node.children@[i]).named implies placed(
            node.children@[i],
            h,
        ) && ((forall|j: int| 0 <= j < i ==> !(#[trigger] node.children@[j]).named) ==> placed_at(
            node.children@[i],
            current,
            h,
        )) by {
            lemma_stmts_placed(g, node.children@, current, h, i);
        }
    }
}

proof fn lemma_stmts(g: GraphView, nodes: Seq<SyntaxNode>, current: NodeId)
    requires
        current < g.nodes.len(),
    ensures
        cfg::grown(g, stmts(g, nodes, current).0),
        stmts(g, nodes, current).1 < stmts(g, nodes, current).0.nodes.len(),
    decreases nodes, 0nat,
{
    if nodes.len() == 0 {
        let none = StmtView::Return { value: None };
        cfg::lemma_steps_grow(g, 0, current, none, current, EdgeKind::True);
    } else {
        lemma_stmts(g, nodes.drop_last(), current);
        let (h, now) = stmts(g, nodes.drop_last(), current);
        if nodes.last().named {
            lemma_stmt(h, nodes.last(), now);
            cfg::lemma_grown_twice(g, h, stmt(h, nodes.last(), now).0);
        }
    }
}

proof fn lemma_stmts_placed(
    g: GraphView,
    nodes: Seq<SyntaxNode>,
    current: NodeId,
    h: GraphView,
    i: int,
)
    requires
        current < g.nodes.len(),
        cfg::grown(stmts(g, nodes, current).0, h),
        0 <= i < nodes.len(),
        nodes[i].named,
    ensures
        placed(nodes[i], h),
        (forall|j: int| 0 <= j < i ==> !(#[trigger] nodes[j]).named) ==> placed_at(
            nodes[i],
            current,
            h,
        ),
    decreases nodes, 1nat,
{
    let rest = nodes.drop_last();
    let (mid, now) = stmts(g, rest, current);
    lemma_stmts(g, rest, current);
    if i == nodes.len() - 1 {
        assert(placed_at(nodes[i], now, h)) by {
            assert(cfg::grown(stmt(mid, nodes[i], now).0, h));
        }
        if forall|j: int| 0 <= j < i ==> !(#[trigger] nodes[j]).named {
            lemma_unnamed(g, rest, current);
        }
    } else {
        if nodes.last().named {
            lemma_stmt(mid, nodes.last(), now);
            cfg::lemma_grown_twice(mid, stmt(mid, nodes.last(), now).0, h);
        }
        assert(rest[i] == nodes[i]);
        lemma_stmts_placed(g, rest, current, h, i);
        if forall|j: int| 0 <= j < i ==> !(#[trigger] nodes[j]).named {
            assert forall|j: int| 0 <= j < i implies !(#[trigger] rest[j]).named by {
                assert(rest[j] == nodes[j]);
            }
        }
    }
}

proof fn lemma_unnamed(g: GraphView, nodes: Seq<SyntaxNode>, current: NodeId)
    requires
        forall|j: int| 0 <= j < nodes.len() ==> !(#[trigger] nodes[j]).named,
    ensures
        stmts(g, nodes, current) == (g, current),
    decreases nodes.len(),
{
    if nodes.len() > 0 {
        assert(!nodes[nodes.len() - 1].named);
        assert forall|j: int| 0 <= j < nodes.drop_last().len() implies !(
        #[trigger] nodes.drop_last()[j]).named by {
            assert(nodes.drop_last()[j] == nodes[j]);
        }
        lemma_unnamed(g, nodes.drop_last(), current);
    }
}

proof fn lemma_stmt(g: GraphView, node: SyntaxNode, current: NodeId)
    requires
        current < g.nodes.len(),
    ensures
        cfg::grown(g, stmt(g, node, current).0),
        stmt(g, node, current).1 < stmt(g, node, current).0.nodes.len(),
    decreases node, 1nat,
{
    if node.kind@ == "return_statement"@ {
        shape::a_return_leads_to_the_exit(g, node, current, shape::first_identifier(node));
    }
    if node.kind@ == "if_statement"@ {
        lemma_conditional(g, node, current);
    }
    if (node.kind@ == "for_statement"@ || node.kind@ == "while_statement"@ || node.kind@ == "enhanced_for_statement"@) {
        lemma_loop(g, node, current);
    }
    cfg::lemma_steps_grow(g, 0, current, shape::other(node), current, EdgeKind::True);
    cfg::lemma_steps_grow(g, 0, current, declaration_stmt(node), current, EdgeKind::True);
    cfg::lemma_steps_grow(g, 0, current, expression_stmt(node), current, EdgeKind::True);
}

proof fn lemma_arm(g: GraphView, node: SyntaxNode, current: NodeId)
    requires
        current < g.nodes.len(),
    ensures
        cfg::grown(g, arm(g, node, current).0),
        arm(g, node, current).1 < arm(g, node, current).0.nodes.len(),
        forall|h: GraphView| #[trigger]
            cfg::grown(arm(g, node, current).0, h) ==> arm_placed(node, current, h),
    decreases node, 2nat,
{
    if node.kind@ == "block"@ {
        lemma_block(g, node, current);
    } else {
        lemma_stmt(g, node, current);
        assert forall|h: GraphView| #[trigger]
            cfg::grown(arm(g, node, current).0, h) implies arm_placed(node, current, h) by {
            assert(cfg::grown(stmt(g, node, current).0, h));
        }
    }
}

proof fn lemma_arm_stays(node: SyntaxNode, at: NodeId, m: GraphView, h: GraphView)
    requires
        cfg::grown(m, h),
        arm_placed(node, at, m),
    ensures
        arm_placed(node, at, h),
{
    lemma_placed_stays(node, at, m, h);
    if node.kind@ == "block"@ {
        lemma_block_stays(node, at, m, h);
    }
}

proof fn lemma_conditional(g: GraphView, node: SyntaxNode, current: NodeId)
    requires
        current < g.nodes.len(),
    ensures
        cfg::grown(g, conditional(g, node, current).0),
        conditional(g, node, current).1 < conditional(g, node, current).0.nodes.len(),
        exists|yes: NodeId, no: NodeId| #[trigger]
            arms_placed(node, current, yes, no, conditional(g, node, current).0),
        node.has_role("condition"@) ==> cfg::holds_at(
            conditional(g, node, current).0,
            current as int,
            StmtView::Other("if "@ + text::trimmed(node.role("condition"@).text@)),
        ),
    decreases node, 0nat,
{
    let h = conditional(g, node, current).0;
    let asked = StmtView::Other("if "@ + text::trimmed(node.role("condition"@).text@));
    cfg::lemma_steps_grow(g, 0, current, asked, current, EdgeKind::True);
    let g2 = if node.has_role("condition"@) {
        g.with_stmt(current, asked)
    } else {
        g
    };
    let guard = if node.has_role("condition"@) {
        null_guard(node.role("condition"@))
    } else {
        None
    };
    shape::arms_begin_behind_their_edges(g2, node, current, guard);
    let (g3, yes) = shape::true_arm(g2, node, current, guard);
    let (g4, true_end) = if node.has_role("consequence"@) {
        arm(g3, node.role("consequence"@), yes)
    } else {
        (g3, yes)
    };
    cfg::lemma_steps_grow(g3, 0, yes, asked, yes, EdgeKind::True);
    if node.has_role("consequence"@) {
        lemma_arm(g3, node.role("consequence"@), yes);
    }
    shape::arms_begin_behind_their_edges(g4, node, current, guard);
    cfg::lemma_steps_grow(g4, 0, current, asked, current, EdgeKind::True);
    let (g5, no, false_end) = if node.has_role("alternative"@) {
        let (a, no) = shape::false_arm(g4, node, current, guard);
        let (b, end) = arm(a, node.role("alternative"@), no);
        (b, no, Some(end))
    } else {
        let (a, skipped) = shape::skipped_arm(g4, node, current, guard);
        (
            a,
            match skipped {
                Some(no) => no,
                None => 0,
            },
            skipped,
        )
    };
    if node.has_role("alternative"@) {
        let (a, n) = shape::false_arm(g4, node, current, guard);
        lemma_arm(a, node.role("alternative"@), n);
        cfg::lemma_grown_twice(g4, a, g5);
        cfg::lemma_grown_keeps(a, g5, 0, asked, (current, no, EdgeKind::False));
        if let Some((var, op)) = guard {
            let denied = StmtView::Guard { var, op: GuardOp::NotEqual, against: GuardAgainst::Nil };
            cfg::lemma_grown_keeps(a, g5, no as int, denied, (current, no, EdgeKind::False));
        }
    }
    shape::arms_meet(g5, node, current, true_end, false_end);
    cfg::lemma_grown_twice(g4, g5, h);
    cfg::lemma_grown_twice(g3, g4, h);
    cfg::lemma_grown_twice(g2, g3, h);
    cfg::lemma_grown_twice(g, g2, h);
    cfg::lemma_grown_keeps(g3, h, 0, asked, (current, yes, EdgeKind::True));
    cfg::lemma_grown_keeps(g5, h, 0, asked, (current, no, EdgeKind::False));
    cfg::lemma_grown_keeps(g2, h, current as int, asked, (current, yes, EdgeKind::True));
    if let Some((var, op)) = guard {
        let said = StmtView::Guard { var, op, against: GuardAgainst::Nil };
        let denied = StmtView::Guard { var, op: GuardOp::NotEqual, against: GuardAgainst::Nil };
        cfg::lemma_grown_keeps(g3, h, yes as int, said, (current, yes, EdgeKind::True));
        cfg::lemma_grown_keeps(g5, h, no as int, denied, (current, no, EdgeKind::False));
    }
    assert(arms_placed(node, current, yes, no, h));
}

proof fn lemma_loop(g: GraphView, node: SyntaxNode, current: NodeId)
    requires
        current < g.nodes.len(),
    ensures
        cfg::grown(g, any_loop(g, node, current).0),
        any_loop(g, node, current).1 < any_loop(g, node, current).0.nodes.len(),
        exists|start: NodeId, end: NodeId| #[trigger]
            body_placed(
                node,
                current,
                start,
                end,
                any_loop(g, node, current).1,
                any_loop(g, node, current).0,
            ),
    decreases node, 0nat,
{
    let (h, after) = any_loop(g, node, current);
    let any = shape::other(node);
    shape::loops_lead_back(g, node, current, current);
    let (g1, start) = shape::loop_body(g, node, current);
    cfg::lemma_steps_grow(g1, 0, start, any, start, EdgeKind::True);
    let (g2, end) = if node.has_role("body"@) {
        block(g1, node.role("body"@), start)
    } else {
        (g1, start)
    };
    if node.has_role("body"@) {
        lemma_block(g1, node.role("body"@), start);
    }
    cfg::lemma_grown_twice(g, g1, g2);
    shape::loops_lead_back(g2, node, current, end);
    cfg::lemma_grown_twice(g, g2, h);
    cfg::lemma_grown_twice(g1, g2, h);
    cfg::lemma_grown_keeps(g1, h, 0, any, (current, start, EdgeKind::True));
    assert(body_placed(node, current, start, end, after, h));
}

proof fn lemma_placed_stays(node: SyntaxNode, at: NodeId, m: GraphView, h: GraphView)
    requires
        cfg::grown(m, h),
    ensures
        placed_at(node, at, m) ==> placed_at(node, at, h),
        placed(node, m) ==> placed(node, h),
{
    assert forall|n: NodeId| #[trigger] placed_at(node, n, m) implies placed_at(node, n, h) by {
        let g = choose|g: GraphView|
            n < g.nodes.len() && cfg::grown(#[trigger] stmt(g, node, n).0, m);
        cfg::lemma_grown_twice(stmt(g, node, n).0, m, h);
    }
}

proof fn lemma_block_stays(node: SyntaxNode, at: NodeId, m: GraphView, h: GraphView)
    requires
        cfg::grown(m, h),
        block_placed(node, at, m),
    ensures
        block_placed(node, at, h),
{
    assert forall|i: int|
        0 <= i < node.children@.len() && (#[trigger] node.children@[i]).named implies placed(
        node.children@[i],
        h,
    ) && ((forall|j: int| 0 <= j < i ==> !(#[trigger] node.children@[j]).named) ==> placed_at(
        node.children@[i],
        at,
        h,
    )) by {
        lemma_placed_stays(node.children@[i], at, m, h);
    }
}

/// What a statement that is lowered into the node `at` leaves there. A conditional
/// has both its arms in the graph, behind a true and a false edge; a loop has its
/// body in the graph; a return leads to the exit; whatever is not modelled keeps
/// its source.
pub proof fn a_statement_leaves_its_trace(node: SyntaxNode, at: NodeId, h: GraphView)
    requires
        placed_at(node, at, h),
    ensures
        node.kind@ == "if_statement"@ ==> (exists|yes: NodeId, no: NodeId| #[trigger]
            arms_placed(node, at, yes, no, h)) && (node.has_role("condition"@) ==> cfg::holds_at(
            h,
            at as int,
            StmtView::Other("if "@ + text::trimmed(node.role("condition"@).text@)),
        )),
        (node.kind@ == "for_statement"@ || node.kind@ == "while_statement"@ || node.kind@ == "enhanced_for_statement"@) ==> exists|start: NodeId, end: NodeId, after: NodeId| #[trigger]
            body_placed(node, at, start, end, after, h),
        node.kind@ == "return_statement"@ && node.has_named(0) && node.named_child(0).kind@
            == "identifier"@ ==> cfg::holds_at(
            h,
            at as int,
            StmtView::Return { value: Some(text::trimmed(node.named_child(0).text@)) },
        ),
        node.kind@ == "return_statement"@ && (!node.has_named(0) || node.named_child(0).kind@
            != "identifier"@) ==> cfg::holds_at(h, at as int, StmtView::Return { value: None }),
        node.kind@ == "return_statement"@ ==> cfg::joins_nodes(h, at, h.exit, EdgeKind::Fallthrough),
        node.kind@ == "local_variable_declaration"@ ==> cfg::holds_at(
            h,
            at as int,
            declaration_stmt(node),
        ),
        node.kind@ == "expression_statement"@ ==> cfg::holds_at(
            h,
            at as int,
            expression_stmt(node),
        ),
        node.kind@ != "local_variable_declaration"@ && node.kind@ != "expression_statement"@ && node.kind@ != "return_statement"@ && node.kind@ != "if_statement"@ && node.kind@ != "for_statement"@ && node.kind@ != "while_statement"@ && node.kind@ != "enhanced_for_statement"@ ==> cfg::holds_at(h, at as int, StmtView::Other(text::trimmed(node.text@))),
{
    let g = choose|g: GraphView| at < g.nodes.len() && cfg::grown(#[trigger] stmt(g, node, at).0, h);
    let m = stmt(g, node, at).0;
    lemma_stmt(g, node, at);
    lemma_kinds_differ();
    if node.kind@ == "if_statement"@ {
        lemma_conditional(g, node, at);
        let (yes, no) = choose|yes: NodeId, no: NodeId| #[trigger]
            arms_placed(node, at, yes, no, m);
        let asked = StmtView::Other("if "@ + text::trimmed(node.role("condition"@).text@));
        cfg::lemma_grown_keeps(m, h, at as int, asked, (at, yes, EdgeKind::True));
        cfg::lemma_grown_keeps(m, h, at as int, asked, (at, no, EdgeKind::False));
        if node.has_role("condition"@) {
            if let Some((var, op)) = null_guard(node.role("condition"@)) {
                let said = StmtView::Guard { var, op, against: GuardAgainst::Nil };
                let denied = StmtView::Guard {
                    var,
                    op: GuardOp::NotEqual,
                    against: GuardAgainst::Nil,
                };
                cfg::lemma_grown_keeps(m, h, yes as int, said, (at, yes, EdgeKind::True));
                cfg::lemma_grown_keeps(m, h, no as int, denied, (at, no, EdgeKind::False));
            }
        }
        if node.has_role("consequence"@) {
            lemma_arm_stays(node.role("consequence"@), yes, m, h);
        }
        if node.has_role("alternative"@) {
            lemma_arm_stays(node.role("alternative"@), no, m, h);
        }
        assert(arms_placed(node, at, yes, no, h));
    } else if (node.kind@ == "for_statement"@ || node.kind@ == "while_statement"@ || node.kind@ == "enhanced_for_statement"@) {
        lemma_loop(g, node, at);
        let any = shape::other(node);
        let after = any_loop(g, node, at).1;
        let (start, end) = choose|start: NodeId, end: NodeId| #[trigger]
            body_placed(node, at, start, end, after, m);
        cfg::lemma_grown_keeps(m, h, 0, any, (at, start, EdgeKind::True));
        cfg::lemma_grown_keeps(m, h, 0, any, (end, at, EdgeKind::Loop));
        cfg::lemma_grown_keeps(m, h, 0, any, (at, after, EdgeKind::False));
        if node.has_role("body"@) {
            lemma_block_stays(node.role("body"@), start, m, h);
        }
        assert(body_placed(node, at, start, end, after, h));
    } else if node.kind@ == "return_statement"@ {
        let ret = StmtView::Return { value: shape::first_identifier(node) };
        shape::a_return_leads_to_the_exit(g, node, at, shape::first_identifier(node));
        cfg::lemma_grown_keeps(m, h, at as int, ret, (at, g.exit, EdgeKind::Fallthrough));
    } else {
        let left = if node.kind@ == "local_variable_declaration"@ {
            declaration_stmt(node)
        } else if node.kind@ == "expression_statement"@ {
            expression_stmt(node)
        } else {
            shape::other(node)
        };
        cfg::lemma_steps_grow(g, 0, at, left, at, EdgeKind::True);
        cfg::lemma_grown_keeps(m, h, at as int, left, (at, at, EdgeKind::True));
    }
}

/// A statement stands directly in another: in an arm of a conditional or in the
/// body of a loop.
pub open spec fn directly_in(inner: SyntaxNode, outer: SyntaxNode) -> bool {
    ||| outer.kind@ == "if_statement"@ && outer.has_role("consequence"@) && in_arm(
        inner,
        outer.role("consequence"@),
    )
    ||| outer.kind@ == "if_statement"@ && outer.has_role("alternative"@) && in_arm(
        inner,
        outer.role("alternative"@),
    )
    ||| (outer.kind@ == "for_statement"@ || outer.kind@ == "while_statement"@ || outer.kind@ == "enhanced_for_statement"@) && outer.has_role("body"@) && stands_in(inner, outer.role("body"@))
}

/// A statement is one of those of a block.
pub open spec fn stands_in(inner: SyntaxNode, node: SyntaxNode) -> bool {
    exists|i: int|
        0 <= i < node.children@.len() && (#[trigger] node.children@[i]).named && inner
            == node.children@[i]
}

/// Every statement of a function, at whatever depth it stands in conditionals and
/// loops, is part of the function's graph. `chain` leads to it from a statement of
/// the function's body, each in the one before it.
pub proof fn every_statement_is_lowered(fn_node: SyntaxNode, chain: Seq<SyntaxNode>)
    requires
        fn_node.has_role("body"@),
        chain.len() > 0,
        stands_in(chain[0], fn_node.role("body"@)),
        forall|i: int| 0 <= i < chain.len() - 1 ==> directly_in(#[trigger] chain[i + 1], chain[i]),
    ensures
        placed(chain.last(), function(fn_node)),
    decreases chain.len(),
{
    let h = function(fn_node);
    if chain.len() == 1 {
        functions_begin_at_their_entry(fn_node);
    } else {
        let outer = chain[chain.len() - 2];
        let inner = chain[chain.len() - 1];
        let rest = chain.drop_last();
        assert forall|i: int| 0 <= i < rest.len() - 1 implies directly_in(
            #[trigger] rest[i + 1],
            rest[i],
        ) by {
            assert(rest[i + 1] == chain[i + 1] && rest[i] == chain[i]);
        }
        every_statement_is_lowered(fn_node, rest);
        assert(chain[chain.len() - 2 + 1] == inner);
        assert(directly_in(chain[chain.len() - 2 + 1], chain[chain.len() - 2]));
        let at = choose|at: NodeId| #[trigger] placed_at(outer, at, h);
        a_statement_leaves_its_trace(outer, at, h);
        if outer.kind@ == "if_statement"@ {
            let (yes, no) = choose|yes: NodeId, no: NodeId| #[trigger]
                arms_placed(outer, at, yes, no, h);
            assert(placed_at(inner, no, h) ==> placed(inner, h));
            assert(placed_at(inner, yes, h) ==> placed(inner, h));

        } else {
            let (start, end, after) = choose|start: NodeId, end: NodeId, after: NodeId| #[trigger]
                body_placed(outer, at, start, end, after, h);
        }
    }
}

/// A function's graph has an entry and an exit of its own; the first statement of
/// the body stands in the entry.
pub proof fn functions_begin_at_their_entry(fn_node: SyntaxNode)
    ensures
        function(fn_node).entry == 0,
        function(fn_node).exit == 1,
        function(fn_node).nodes.len() >= 2,
        function(fn_node).nodes[0].source_line == fn_node.first_line(),
        function(fn_node).nodes[1].source_line == fn_node.last_line(),
        exists|end: NodeId| cfg::joins_nodes(function(fn_node), end, 1, EdgeKind::Fallthrough),
        fn_node.has_role("body"@) ==> block_placed(fn_node.role("body"@), 0, function(fn_node)),
{
    let h = function(fn_node);
    let g = shape::opened(fn_node);
    let any = shape::other(fn_node);

    let (m, end) = if fn_node.has_role("body"@) {
        block(g, fn_node.role("body"@), 0)
    } else {
        (g, 0)
    };
    cfg::lemma_steps_grow(g, 0, 0, any, 1, EdgeKind::Fallthrough);
    if fn_node.has_role("body"@) {
        lemma_block(g, fn_node.role("body"@), 0);
    }
    cfg::lemma_steps_grow(m, 0, end, any, 1, EdgeKind::Fallthrough);
    cfg::lemma_grown_twice(g, m, h);
    assert(h.nodes[0].source_line == g.nodes[0].source_line);
    assert(h.nodes[1].source_line == g.nodes[1].source_line);
}

/// A statement that is lowered into the node `at` ends in the node `end`, and the
/// outcome is part of `h`.
pub open spec fn runs(node: SyntaxNode, at: NodeId, end: NodeId, h: GraphView) -> bool {
    exists|g: GraphView|
        at < g.nodes.len() && end == (#[trigger] stmt(g, node, at)).1 && cfg::grown(
            stmt(g, node, at).0,
            h,
        )
}

/// Statements follow each other: each begins in the node in which the one before it
/// ends. `ends` gives those nodes.
pub open spec fn follow(nodes: Seq<SyntaxNode>, at: NodeId, ends: Seq<NodeId>, h: GraphView) -> bool {
    &&& ends.len() == nodes.len() + 1
    &&& ends[0] == at
    &&& forall|i: int|
        0 <= i < nodes.len() ==> if (#[trigger] nodes[i]).named {
            runs(nodes[i], ends[i], ends[i + 1], h)
        } else {
            ends[i] == ends[i + 1]
        }
}

/// The statements of a block follow each other from the node `at` to the node `end`.
pub open spec fn block_runs(node: SyntaxNode, at: NodeId, end: NodeId, h: GraphView) -> bool {
    exists|ends: Seq<NodeId>| #[trigger]
        follow(node.children@, at, ends, h) && ends.last() == end
}

/// The statements of a list follow each other.
pub proof fn statements_follow_each_other(
    g: GraphView,
    nodes: Seq<SyntaxNode>,
    current: NodeId,
    h: GraphView,
)
    requires
        current < g.nodes.len(),
        cfg::grown(stmts(g, nodes, current).0, h),
    ensures
        exists|ends: Seq<NodeId>| #[trigger]
            follow(nodes, current, ends, h) && ends.last() == stmts(g, nodes, current).1,
    decreases nodes.len(),
{
    if nodes.len() == 0 {
        let ends = seq![current];
        assert(follow(nodes, current, ends, h));
    } else {
        let rest = nodes.drop_last();
        let (mid, now) = stmts(g, rest, current);
        lemma_stmts(g, rest, current);
        let next = stmts(g, nodes, current).1;
        if nodes.last().named {
            lemma_stmt(mid, nodes.last(), now);
            cfg::lemma_grown_twice(mid, stmt(mid, nodes.last(), now).0, h);
            assert(runs(nodes.last(), now, next, h));
        }
        statements_follow_each_other(g, rest, current, h);
        let less = choose|ends: Seq<NodeId>| #[trigger]
            follow(rest, current, ends, h) && ends.last() == now;
        let ends = less.push(next);
        assert forall|i: int| 0 <= i < nodes.len() implies if (#[trigger] nodes[i]).named {
            runs(nodes[i], ends[i], ends[i + 1], h)
        } else {
            ends[i] == ends[i + 1]
        } by {
            if i < rest.len() {
                assert(rest[i] == nodes[i]);
            }
        }
        assert(follow(nodes, current, ends, h));
    }
}

proof fn lemma_block_runs(g: GraphView, node: SyntaxNode, current: NodeId, h: GraphView)
    requires
        current < g.nodes.len(),
        cfg::grown(block(g, node, current).0, h),
    ensures
        block_runs(node, current, block(g, node, current).1, h),
{
    statements_follow_each_other(g, node.children@, current, h);
}

/// An arm, a block or a single statement, runs from the node `at` to the node `end`.
pub open spec fn arm_runs(node: SyntaxNode, at: NodeId, end: NodeId, h: GraphView) -> bool {
    &&& node.kind@ == "block"@ ==> block_runs(node, at, end, h)
    &&& node.kind@ != "block"@ ==> runs(node, at, end, h)
}

/// How a conditional runs from the node `at` to the node `end`: over a true edge,
/// through its arm and on to the end, and over a false edge, through the other arm
/// or through none, and on to the same end.
pub open spec fn arms_join(
    node: SyntaxNode,
    at: NodeId,
    yes: NodeId,
    yes_end: NodeId,
    no: NodeId,
    no_end: NodeId,
    end: NodeId,
    h: GraphView,
) -> bool {
    &&& cfg::joins_nodes(h, at, yes, EdgeKind::True)
    &&& node.has_role("consequence"@) ==> arm_runs(node.role("consequence"@), yes, yes_end, h)
    &&& !node.has_role("consequence"@) ==> yes_end == yes
    &&& cfg::joins_nodes(h, yes_end, end, EdgeKind::Fallthrough)
    &&& node.has_role("alternative"@) ==> cfg::joins_nodes(h, at, no, EdgeKind::False) && cfg::joins_nodes(
        h,
        no_end,
        end,
        EdgeKind::Fallthrough,
    )
    &&& node.has_role("alternative"@) ==> arm_runs(node.role("alternative"@), no, no_end, h)
    &&& !(node.has_role("alternative"@)) ==> cfg::joins_nodes(h, at, end, EdgeKind::False) || (cfg::joins_nodes(
        h,
        at,
        no,
        EdgeKind::False,
    ) && cfg::joins_nodes(h, no, end, EdgeKind::Fallthrough))
}

/// A conditional runs through one of its arms, and both meet behind it.
pub proof fn conditionals_run_through_their_arms(
    node: SyntaxNode,
    at: NodeId,
    end: NodeId,
    h: GraphView,
)
    requires
        node.kind@ == "if_statement"@,
        runs(node, at, end, h),
    ensures
        exists|yes: NodeId, yes_end: NodeId, no: NodeId, no_end: NodeId| #[trigger]
            arms_join(node, at, yes, yes_end, no, no_end, end, h),
{
    let g = choose|g: GraphView|
        at < g.nodes.len() && end == (#[trigger] stmt(g, node, at)).1 && cfg::grown(
            stmt(g, node, at).0,
            h,
        );
    lemma_kinds_differ();
    let m = stmt(g, node, at).0;
    assert(stmt(g, node, at) == conditional(g, node, at));
    let current = at;
    let asked = StmtView::Other("if "@ + text::trimmed(node.role("condition"@).text@));
    cfg::lemma_steps_grow(g, 0, current, asked, current, EdgeKind::True);
    let g2 = if node.has_role("condition"@) {
        g.with_stmt(current, asked)
    } else {
        g
    };
    let guard = if node.has_role("condition"@) {
        null_guard(node.role("condition"@))
    } else {
        None
    };
    shape::arms_begin_behind_their_edges(g2, node, current, guard);
    let (g3, yes) = shape::true_arm(g2, node, current, guard);
    let (g4, true_end) = if node.has_role("consequence"@) {
        arm(g3, node.role("consequence"@), yes)
    } else {
        (g3, yes)
    };
    cfg::lemma_steps_grow(g3, 0, yes, asked, yes, EdgeKind::True);
    if node.has_role("consequence"@) {
        lemma_arm(g3, node.role("consequence"@), yes);
    }
    shape::arms_begin_behind_their_edges(g4, node, current, guard);
    cfg::lemma_steps_grow(g4, 0, current, asked, current, EdgeKind::True);
    let (g5, no, false_end) = if node.has_role("alternative"@) {
        let (a, no) = shape::false_arm(g4, node, current, guard);
        let (b, end) = arm(a, node.role("alternative"@), no);
        (b, no, Some(end))
    } else {
        let (a, skipped) = shape::skipped_arm(g4, node, current, guard);
        (
            a,
            match skipped {
                Some(no) => no,
                None => 0,
            },
            skipped,
        )
    };
    if node.has_role("alternative"@) {
        let (a, n) = shape::false_arm(g4, node, current, guard);
        lemma_arm(a, node.role("alternative"@), n);
        cfg::lemma_grown_twice(g4, a, g5);
        cfg::lemma_grown_keeps(a, g5, 0, asked, (current, no, EdgeKind::False));
        if let Some((var, op)) = guard {
            let denied = StmtView::Guard { var, op: GuardOp::NotEqual, against: GuardAgainst::Nil };
            cfg::lemma_grown_keeps(a, g5, no as int, denied, (current, no, EdgeKind::False));
        }
    }
    shape::arms_meet(g5, node, current, true_end, false_end);
    let no_end = match false_end {
        Some(e) => e,
        None => 0,
    };
    cfg::lemma_grown_twice(g5, m, h);
    cfg::lemma_grown_twice(g4, g5, h);
    cfg::lemma_grown_twice(g3, g4, h);
    cfg::lemma_grown_keeps(g3, h, 0, asked, (current, yes, EdgeKind::True));
    cfg::lemma_grown_keeps(g5, h, 0, asked, (current, no, EdgeKind::False));
    cfg::lemma_grown_keeps(m, h, 0, asked, (true_end, end, EdgeKind::Fallthrough));
    cfg::lemma_grown_keeps(m, h, 0, asked, (no_end, end, EdgeKind::Fallthrough));
    cfg::lemma_grown_keeps(m, h, 0, asked, (current, end, EdgeKind::False));
    if node.has_role("consequence"@) {
        let arm = node.role("consequence"@);
        if arm.kind@ == "block"@ {
            lemma_block_runs(g3, arm, yes, h);
        } else {
            assert(stmt(g3, arm, yes).1 == true_end);
        }
    }
    if node.has_role("alternative"@) {
        let arm = node.role("alternative"@);
        let a = shape::false_arm(g4, node, current, guard).0;
        if arm.kind@ == "block"@ {
            lemma_block_runs(a, arm, no, h);
        } else {
            assert(stmt(a, arm, no).1 == no_end);
        }
    }
    assert(arms_join(node, at, yes, true_end, no, no_end, end, h));
}

/// How a loop runs: over a true edge from its header through its body and back, and
/// over a false edge on to its end.
pub open spec fn body_loops(
    node: SyntaxNode,
    header: NodeId,
    start: NodeId,
    body_end: NodeId,
    end: NodeId,
    h: GraphView,
) -> bool {
    &&& cfg::joins_nodes(h, header, start, EdgeKind::True)
    &&& node.has_role("body"@) ==> block_runs(node.role("body"@), start, body_end, h)
    &&& !(node.has_role("body"@)) ==> body_end == start
    &&& cfg::joins_nodes(h, body_end, header, EdgeKind::Loop)
    &&& cfg::joins_nodes(h, header, end, EdgeKind::False)
}

/// A loop runs through its body and back, and ends behind its header.
pub proof fn loops_run_through_their_body(
    node: SyntaxNode,
    at: NodeId,
    end: NodeId,
    h: GraphView,
)
    requires
        (node.kind@ == "for_statement"@ || node.kind@ == "while_statement"@ || node.kind@ == "enhanced_for_statement"@),
        runs(node, at, end, h),
    ensures
        exists|start: NodeId, body_end: NodeId| #[trigger]
            body_loops(node, at, start, body_end, end, h),
{
    let g = choose|g: GraphView|
        at < g.nodes.len() && end == (#[trigger] stmt(g, node, at)).1 && cfg::grown(
            stmt(g, node, at).0,
            h,
        );
    lemma_kinds_differ();
    let m = stmt(g, node, at).0;
    assert(stmt(g, node, at) == any_loop(g, node, at));
    let any = shape::other(node);
    shape::loops_lead_back(g, node, at, at);
    let (g0, start) = shape::loop_body(g, node, at);
    cfg::lemma_steps_grow(g0, 0, start, any, start, EdgeKind::True);
    let g1 = g0;
    cfg::lemma_grown_twice(g, g0, g1);
    let (g2, body_end) = if node.has_role("body"@) {
        block(g1, node.role("body"@), start)
    } else {
        (g1, start)
    };
    cfg::lemma_steps_grow(g1, 0, start, any, start, EdgeKind::True);
    if node.has_role("body"@) {
        lemma_block(g1, node.role("body"@), start);
    }
    cfg::lemma_grown_twice(g, g1, g2);
    shape::loops_lead_back(g2, node, at, body_end);
    cfg::lemma_grown_twice(g2, m, h);
    cfg::lemma_grown_twice(g1, g2, h);
    cfg::lemma_grown_twice(g0, g1, h);
    cfg::lemma_grown_keeps(g0, h, 0, any, (at, start, EdgeKind::True));
    cfg::lemma_grown_keeps(m, h, 0, any, (body_end, at, EdgeKind::Loop));
    cfg::lemma_grown_keeps(m, h, 0, any, (at, end, EdgeKind::False));
    if node.has_role("body"@) {
        lemma_block_runs(g1, node.role("body"@), start, h);
    }
    assert(body_loops(node, at, start, body_end, end, h));
}

/// Where a statement ends that is neither a conditional, a loop nor a return: where
/// it began. What follows a return stands in a node that nothing leads to from it.
pub proof fn plain_statements_end_where_they_begin(
    node: SyntaxNode,
    at: NodeId,
    end: NodeId,
    h: GraphView,
)
    requires
        runs(node, at, end, h),
        node.kind@ != "if_statement"@,
        !(node.kind@ == "for_statement"@ || node.kind@ == "while_statement"@ || node.kind@ == "enhanced_for_statement"@),
    ensures
        node.kind@ != "return_statement"@ ==> end == at,
        node.kind@ == "return_statement"@ && h.nodes.len() <= NodeId::MAX ==> end != at,
{
    let g = choose|g: GraphView|
        at < g.nodes.len() && end == (#[trigger] stmt(g, node, at)).1 && cfg::grown(
            stmt(g, node, at).0,
            h,
        );
    lemma_kinds_differ();

}

/// A function runs through its body from its entry, and from the end of that to its
/// exit.
pub proof fn functions_run_through_their_body(fn_node: SyntaxNode)
    requires
        fn_node.has_role("body"@),
    ensures
        exists|end: NodeId| #[trigger]
            block_runs(fn_node.role("body"@), 0, end, function(fn_node)) && cfg::joins_nodes(
                function(fn_node),
                end,
                1,
                EdgeKind::Fallthrough,
            ),
{
    let h = function(fn_node);
    let g = shape::opened(fn_node);

    let (m, end) = block(g, fn_node.role("body"@), 0);
    lemma_block(g, fn_node.role("body"@), 0);
    cfg::lemma_steps_grow(m, 0, end, shape::other(fn_node), 1, EdgeKind::Fallthrough);
    lemma_block_runs(g, fn_node.role("body"@), 0, h);
}

proof fn lemma_kinds_differ()
    ensures
        "local_variable_declaration"@ != "expression_statement"@,
        "local_variable_declaration"@ != "return_statement"@,
        "local_variable_declaration"@ != "if_statement"@,
        "local_variable_declaration"@ != "for_statement"@,
        "local_variable_declaration"@ != "while_statement"@,
        "local_variable_declaration"@ != "enhanced_for_statement"@,
        "expression_statement"@ != "return_statement"@,
        "expression_statement"@ != "if_statement"@,
        "expression_statement"@ != "for_statement"@,
        "expression_statement"@ != "while_statement"@,
        "expression_statement"@ != "enhanced_for_statement"@,
        "return_statement"@ != "if_statement"@,
        "return_statement"@ != "for_statement"@,
        "return_statement"@ != "while_statement"@,
        "return_statement"@ != "enhanced_for_statement"@,
        "if_statement"@ != "for_statement"@,
        "if_statement"@ != "while_statement"@,
        "if_statement"@ != "enhanced_for_statement"@,
        "for_statement"@ != "while_statement"@,
        "for_statement"@ != "enhanced_for_statement"@,
        "while_statement"@ != "enhanced_for_statement"@,
{
    reveal_strlit("local_variable_declaration");
    reveal_strlit("expression_statement");
    reveal_strlit("return_statement");
    reveal_strlit("if_statement");
    reveal_strlit("for_statement");
    reveal_strlit("while_statement");
    reveal_strlit("enhanced_for_statement");
    assert("local_variable_declaration"@.len() != "expression_statement"@.len());
    assert("local_variable_declaration"@.len() != "return_statement"@.len());
    assert("local_variable_declaration"@.len() != "if_statement"@.len());
    assert("local_variable_declaration"@.len() != "for_statement"@.len());
    assert("local_variable_declaration"@.len() != "while_statement"@.len());
    assert("local_variable_declaration"@.len() != "enhanced_for_statement"@.len());
    assert("expression_statement"@.len() != "return_statement"@.len());
    assert("expression_statement"@.len() != "if_statement"@.len());
    assert("expression_statement"@.len() != "for_statement"@.len());
    assert("expression_statement"@.len() != "while_statement"@.len());
    assert("expression_statement"@.len() != "enhanced_for_statement"@.len());
    assert("return_statement"@.len() != "if_statement"@.len());
    assert("return_statement"@.len() != "for_statement"@.len());
    assert("return_statement"@.len() != "while_statement"@.len());
    assert("return_statement"@.len() != "enhanced_for_statement"@.len());
    assert("if_statement"@.len() != "for_statement"@.len());
    assert("if_statement"@.len() != "while_statement"@.len());
    assert("if_statement"@.len() != "enhanced_for_statement"@.len());
    assert("for_statement"@.len() != "while_statement"@.len());
    assert("for_statement"@.len() != "enhanced_for_statement"@.len());
    assert("while_statement"@.len() != "enhanced_for_statement"@.len());
}

/// A statement is an arm, or one of the statements of an arm that is a block.
pub open spec fn in_arm(inner: SyntaxNode, arm: SyntaxNode) -> bool {
    ||| arm.kind@ == "block"@ && stands_in(inner, arm)
    ||| arm.kind@ != "block"@ && inner == arm
}

/// What a call is called: by its name, behind an object that is an identifier.
pub proof fn calls_are_named_by_what_they_call(call: SyntaxNode)
    requires
        call.has_role("name"@),
    ensures
        call.has_role("object"@) && call.role("object"@).kind@ == "identifier"@ ==> call_name(call)
            == Some(
            text::trimmed(call.role("object"@).text@) + "."@ + text::trimmed(
                call.role("name"@).text@,
            ),
        ),
        !call.has_role("object"@) || call.role("object"@).kind@ != "identifier"@ ==> call_name(call)
            == Some(text::trimmed(call.role("name"@).text@)),
{
}

/// What the right side of an assignment is taken for.
pub proof fn right_sides_are_recognised(node: SyntaxNode)
    ensures
        node.kind@ == "identifier"@ ==> rhs_of(node) == RhsView::Var(text::trimmed(node.text@)),
        rhs_of(node) is NilLiteral <==> node.kind@ == "null_literal"@,
        node.kind@ != "identifier"@ && node.kind@ != "null_literal"@ ==> rhs_of(node)
            is Unknown,
{
    reveal_strlit("identifier");
    reveal_strlit("null_literal");
    assert("identifier"@.len() != "null_literal"@.len());
}

/// What a declaration of one variable becomes: a call of a named method keeps its
/// result in the variable; everything else is an assignment.
pub proof fn declarations_keep_their_name(node: SyntaxNode, i: int)
    requires
        0 <= i < node.children@.len(),
        i == syntax::named_kind_index(node.children@, "variable_declarator"@),
        syntax::named_kind_count(node.children@, "variable_declarator"@) == 1,
        node.children@[i].has_role("name"@),
    ensures
        ({
            let d = node.children@[i];
            let lhs = text::trimmed(d.role("name"@).text@);
            let value = d.role("value"@);
            &&& !d.has_role("value"@) ==> declaration_stmt(node) == (StmtView::Assign {
                lhs,
                rhs: RhsView::Unknown,
            })
            &&& d.has_role("value"@) && value.kind@ == "method_invocation"@ ==> (call_name(value)
                matches Some(name) ==> declaration_stmt(node) == (StmtView::Call {
                target: cfg::CallTargetView::Named(name),
                args: shape::identifier_args(value),
                assigned_to: Some(lhs),
            }))
            &&& d.has_role("value"@) && value.kind@ != "method_invocation"@ ==> declaration_stmt(
                node,
            ) == (StmtView::Assign { lhs, rhs: rhs_of(value) })
        }),
{
}

/// What an expression statement becomes: an assignment to an identifier is an
/// assignment, or a call that keeps its result there; a bare call keeps nothing.
pub proof fn expressions_are_assignments_or_calls(stmt: SyntaxNode)
    requires
        stmt.has_named(0),
    ensures
        ({
            let inner = stmt.named_child(0);
            let right = inner.role("right"@);
            let to_name = inner.kind@ == "assignment_expression"@ && inner.has_role("left"@)
                && inner.has_role("right"@) && inner.role("left"@).kind@ == "identifier"@;
            let lhs = text::trimmed(inner.role("left"@).text@);
            &&& inner.kind@ == "method_invocation"@ ==> (call_name(inner) matches Some(name)
                ==> expression_stmt(stmt) == (StmtView::Call {
                target: cfg::CallTargetView::Named(name),
                args: shape::identifier_args(inner),
                assigned_to: None,
            }))
            &&& to_name && right.kind@ == "method_invocation"@ ==> (call_name(right)
                matches Some(name) ==> expression_stmt(stmt) == (StmtView::Call {
                target: cfg::CallTargetView::Named(name),
                args: shape::identifier_args(right),
                assigned_to: Some(lhs),
            }))
            &&& to_name && right.kind@ != "method_invocation"@ ==> expression_stmt(stmt) == (
            StmtView::Assign { lhs, rhs: rhs_of(right) })
            &&& inner.kind@ != "assignment_expression"@ && inner.kind@ != "method_invocation"@
                ==> expression_stmt(stmt) == StmtView::Other(text::trimmed(stmt.text@))
        }),
{
    reveal_strlit("assignment_expression");
    reveal_strlit("method_invocation");
    assert("assignment_expression"@.len() != "method_invocation"@.len());
}

/// What a condition says of a variable: a comparison of an identifier with null,
/// on either side, in parentheses or not, by its operator.
pub proof fn comparisons_with_null_are_guards(cond: SyntaxNode)
    requires
        cond.has_role("left"@),
        cond.has_role("right"@),
    ensures
        ({
            let (left, right) = (cond.role("left"@), cond.role("right"@));
            let op = shape::guard_op(text::trimmed(cond.text@));
            &&& cond.kind@ == "binary_expression"@ && left.kind@ == "identifier"@ && right.kind@
                == "null_literal"@ ==> (op matches Some(o) ==> null_guard(cond) == Some(
                (text::trimmed(left.text@), o),
            ))
            &&& cond.kind@ == "binary_expression"@ && right.kind@ == "identifier"@ && left.kind@
                == "null_literal"@ ==> (op matches Some(o) ==> null_guard(cond) == Some(
                (text::trimmed(right.text@), o),
            ))
            &&& null_comparison(cond) is Some ==> cond.kind@ == "binary_expression"@ && op is Some
                && (left.kind@ == "null_literal"@ || right.kind@ == "null_literal"@)
        }),
        forall|outer: SyntaxNode|
            outer.kind@ == "parenthesized_expression"@ && outer.has_named(0) && outer.named_child(0)
                == cond ==> #[trigger] null_guard(outer) == null_comparison(cond),
{
    reveal_strlit("identifier");
    reveal_strlit("null_literal");
    reveal_strlit("binary_expression");
    reveal_strlit("parenthesized_expression");
    assert("identifier"@.len() != "null_literal"@.len());
    assert("binary_expression"@.len() != "parenthesized_expression"@.len());
}

} // verus!
