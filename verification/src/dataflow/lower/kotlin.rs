//! Lowering of Kotlin functions. The grammar gives few roles to children, so
//! most are found by kind; `null` is an identifier with the text `null`.

use vstd::prelude::*;

use crate::dataflow::cfg;
use crate::dataflow::cfg::{
    Cfg, EdgeKind, GraphView, GuardAgainst, GuardOp, NodeId, RhsShape, RhsView, Stmt, StmtView,
};
use crate::dataflow::lower::shape;
use crate::syntax;
use crate::syntax::SyntaxNode;
use crate::text;

verus! {

/// The node is the identifier `null`.
pub open spec fn is_null(node: SyntaxNode) -> bool {
    node.kind@ == "identifier"@ && node.trimmed_text() == "null"@
}

/// What an expression on the right of an assignment is.
pub open spec fn rhs_of(node: SyntaxNode) -> RhsView {
    if is_null(node) {
        RhsView::NilLiteral
    } else if node.kind@ == "identifier"@ {
        RhsView::Var(node.trimmed_text())
    } else {
        RhsView::Unknown
    }
}

/// The name that a call calls: `name`, or `receiver.name`.
pub open spec fn call_name(call: SyntaxNode) -> Option<Seq<char>> {
    if !call.has_named(0) {
        None
    } else {
        let callee = call.named_child(0);
        if callee.kind@ == "identifier"@ {
            Some(callee.trimmed_text())
        } else if callee.kind@ == "navigation_expression"@ && callee.has_named(0)
            && callee.has_named(1) && callee.named_child(1).kind@ == "identifier"@ {
            Some(
                callee.named_child(0).trimmed_text() + "."@ + callee.named_child(1).trimmed_text(),
            )
        } else {
            None
        }
    }
}

/// The identifiers that stand as arguments among the nodes, in order.
pub open spec fn args_among(nodes: Seq<SyntaxNode>) -> Seq<Seq<char>>
    decreases nodes.len(),
{
    if nodes.len() == 0 {
        Seq::empty()
    } else {
        let earlier = args_among(nodes.drop_last());
        let last = nodes.last();
        let i = syntax::kind_index(last.children@, "identifier"@) as int;
        if last.kind@ == "value_argument"@ && i < last.children@.len() {
            earlier.push(last.children@[i].trimmed_text())
        } else {
            earlier
        }
    }
}

/// The identifiers that stand as arguments of a call, in order.
pub open spec fn call_args(call: SyntaxNode) -> Seq<Seq<char>> {
    let i = syntax::kind_index(call.children@, "value_arguments"@) as int;
    if i < call.children@.len() {
        args_among(call.children@[i].children@)
    } else {
        Seq::empty()
    }
}

/// The last of the nodes that is named and no variable declaration.
pub open spec fn last_value(nodes: Seq<SyntaxNode>) -> Option<SyntaxNode>
    decreases nodes.len(),
{
    if nodes.len() == 0 {
        None
    } else if nodes.last().named && nodes.last().kind@ != "variable_declaration"@ {
        Some(nodes.last())
    } else {
        last_value(nodes.drop_last())
    }
}

/// The name that a property declaration declares.
pub open spec fn declared_name(node: SyntaxNode) -> Option<Seq<char>> {
    let i = syntax::kind_index(node.children@, "variable_declaration"@) as int;
    if i < node.children@.len() {
        let j = syntax::kind_index(node.children@[i].children@, "identifier"@) as int;
        if j < node.children@[i].children@.len() {
            Some(node.children@[i].children@[j].trimmed_text())
        } else {
            None
        }
    } else {
        None
    }
}

/// What a `val` or `var` declaration lowers to. Only a declaration of one
/// variable with an initializer is modelled.
pub open spec fn property_stmt(node: SyntaxNode) -> StmtView {
    match (declared_name(node), last_value(node.children@)) {
        (Some(lhs), Some(value)) => if syntax::kind_index(node.children@, "="@)
            >= node.children@.len() {
            shape::other(node)
        } else if value.kind@ == "call_expression"@ && call_name(value) is Some {
            shape::call_of(call_name(value)->0, call_args(value), Some(lhs))
        } else {
            StmtView::Assign { lhs, rhs: rhs_of(value) }
        },
        _ => shape::other(node),
    }
}

/// What a call that stands as a statement lowers to.
pub open spec fn bare_call_stmt(node: SyntaxNode) -> StmtView {
    match call_name(node) {
        Some(name) => shape::call_of(name, call_args(node), None),
        None => shape::other(node),
    }
}

/// What a condition says of a variable: `var != null`, `var == null` or either
/// the other way round.
pub open spec fn null_guard(cond: SyntaxNode) -> Option<(Seq<char>, GuardOp)> {
    if cond.kind@ == "binary_expression"@ && cond.has_role("left"@) && cond.has_role("right"@)
        && is_null(cond.role("left"@)) != is_null(cond.role("right"@)) {
        let var = if is_null(cond.role("right"@)) {
            cond.role("left"@)
        } else {
            cond.role("right"@)
        };
        match shape::guard_op(cond.trimmed_text()) {
            Some(op) => Some((var.trimmed_text(), op)),
            None => None,
        }
    } else {
        None
    }
}

/// The graph with a block lowered into it, and the node that is open behind it.
pub open spec fn block(g: GraphView, node: SyntaxNode, current: NodeId) -> (GraphView, NodeId)
    decreases node, 0nat,
{
    stmts(g, node.children@, current)
}

/// The graph with the named nodes lowered into it as statements, in order.
pub open spec fn stmts(g: GraphView, nodes: Seq<SyntaxNode>, current: NodeId) -> (GraphView, NodeId)
    decreases nodes, 0nat,
{
    if nodes.len() == 0 {
        (g, current)
    } else {
        let (g, current) = stmts(g, nodes.drop_last(), current);
        if nodes.last().named {
            stmt(g, nodes.last(), current)
        } else {
            (g, current)
        }
    }
}

/// The graph with a statement lowered into it, and the node that is open
/// behind it.
pub open spec fn stmt(g: GraphView, node: SyntaxNode, current: NodeId) -> (GraphView, NodeId)
    decreases node, 1nat,
{
    if node.kind@ == "property_declaration"@ {
        (g.with_stmt(current, property_stmt(node)), current)
    } else if node.kind@ == "return_expression"@ {
        shape::returned(g, node, current, shape::first_identifier(node))
    } else if node.kind@ == "if_expression"@ {
        conditional(g, node, current)
    } else if node.kind@ == "for_statement"@ || node.kind@ == "while_statement"@ {
        any_loop(g, node, current)
    } else if node.kind@ == "call_expression"@ {
        (g.with_stmt(current, bare_call_stmt(node)), current)
    } else {
        (g.with_stmt(current, shape::other(node)), current)
    }
}

/// The position of the child that is block number `n`, from 0, of a node.
pub open spec fn block_index(node: SyntaxNode, n: nat) -> nat {
    syntax::nth_kind_index(node.children@, "block"@, n)
}

/// The graph with a conditional lowered into it. Its arms are its first two
/// blocks; each starts with what the condition says of a variable there.
pub open spec fn conditional(g: GraphView, node: SyntaxNode, current: NodeId) -> (GraphView, NodeId)
    decreases node, 0nat,
{
    let g = g.with_stmt(current, StmtView::Other("if "@ + node.trimmed_text()));
    let guard = if node.has_role("condition"@) {
        null_guard(node.role("condition"@))
    } else {
        None
    };
    let (g, true_start) = shape::true_arm(g, node, current, guard);
    let first = block_index(node, 0) as int;
    let second = block_index(node, 1) as int;
    let (g, true_end) = if first < node.children@.len() {
        block(g, node.children@[first], true_start)
    } else {
        (g, true_start)
    };
    if second < node.children@.len() {
        let (g, false_start) = shape::false_arm(g, node, current, guard);
        let (g, false_end) = block(g, node.children@[second], false_start);
        shape::joined(g, node, current, true_end, Some(false_end))
    } else {
        let (g, skipped) = shape::skipped_arm(g, node, current, guard);
        shape::joined(g, node, current, true_end, skipped)
    }
}

/// The graph with a loop lowered into it. What its header holds is not
/// modelled.
pub open spec fn any_loop(g: GraphView, node: SyntaxNode, current: NodeId) -> (GraphView, NodeId)
    decreases node, 0nat,
{
    let (g, start) = shape::loop_body(g, node, current);
    let body = block_index(node, 0) as int;
    let (g, end) = if body < node.children@.len() {
        block(g, node.children@[body], start)
    } else {
        (g, start)
    };
    shape::looped(g, node, current, end)
}

/// The graph of a function. A body that is an expression is not modelled.
pub open spec fn function(fn_node: SyntaxNode) -> GraphView {
    let g = shape::opened(fn_node);
    let i = syntax::kind_index(fn_node.children@, "function_body"@) as int;
    let (g, end) = if i < fn_node.children@.len() && block_index(fn_node.children@[i], 0)
        < fn_node.children@[i].children@.len() {
        block(
            g,
            fn_node.children@[i].children@[block_index(fn_node.children@[i], 0) as int],
            0,
        )
    } else {
        (g, 0)
    };
    g.with_edge(end, 1, EdgeKind::Fallthrough)
}

/// The function's own bare name.
pub fn function_name(fn_node: &SyntaxNode) -> (name: Option<String>)
    ensures
        text::optional(name) == shape::own_name(*fn_node),
{
    shape::find_own_name(fn_node)
}

fn null_node(node: &SyntaxNode) -> (r: bool)
    ensures
        r == is_null(*node),
{
    node.is_kind("identifier") && text::same(node.trimmed(), "null")
}

fn classify_rhs(node: &SyntaxNode) -> (rhs: RhsShape)
    ensures
        rhs@ == rhs_of(*node),
{
    if null_node(node) {
        RhsShape::NilLiteral
    } else if node.is_kind("identifier") {
        RhsShape::Var(node.trimmed().to_owned())
    } else {
        RhsShape::Unknown
    }
}

fn call_target_name(call: &SyntaxNode) -> (name: Option<String>)
    ensures
        text::optional(name) == call_name(*call),
{
    match call.named_child_at(0) {
        Some(callee) => {
            if callee.is_kind("identifier") {
                Some(callee.trimmed().to_owned())
            } else if callee.is_kind("navigation_expression") {
                match (callee.named_child_at(0), callee.named_child_at(1)) {
                    (Some(receiver), Some(method)) => {
                        if method.is_kind("identifier") {
                            Some(text::concat3(receiver.trimmed(), ".", method.trimmed()))
                        } else {
                            None
                        }
                    },
                    _ => None,
                }
            } else {
                None
            }
        },
        None => None,
    }
}

fn call_arg_identifiers(call: &SyntaxNode) -> (args: Vec<String>)
    ensures
        text::views(args@) == call_args(*call),
{
    let mut args: Vec<String> = Vec::new();
    proof {
        assert(text::views(args@) =~= Seq::<Seq<char>>::empty());
    }
    if let Some(list) = call.child_of_kind("value_arguments") {
        let mut i: usize = 0;
        proof {
            assert(list.children@.take(0) =~= Seq::empty());
        }
        while i < list.children.len()
            invariant
                0 <= i <= list.children@.len(),
                text::views(args@) == args_among(list.children@.take(i as int)),
            decreases list.children.len() - i,
        {
            proof {
                assert(list.children@.take(i + 1).drop_last() =~= list.children@.take(i as int));
                assert(list.children@.take(i + 1).last() == list.children@[i as int]);
            }
            if list.children[i].is_kind("value_argument") {
                if let Some(ident) = list.children[i].child_of_kind("identifier") {
                    let name: String = ident.trimmed().to_owned();
                    proof {
                        text::lemma_views_push(args@, name);
                    }
                    args.push(name);
                }
            }
            i += 1;
        }
        proof {
            assert(list.children@.take(list.children@.len() as int) =~= list.children@);
        }
    }
    args
}

fn find_last_value(node: &SyntaxNode) -> (value: Option<&SyntaxNode>)
    ensures
        match value {
            Some(v) => last_value(node.children@) == Some(*v),
            None => last_value(node.children@) is None,
        },
{
    let mut n: usize = node.children.len();
    proof {
        assert(node.children@.take(node.children@.len() as int) =~= node.children@);
    }
    while n > 0
        invariant
            0 <= n <= node.children@.len(),
            last_value(node.children@) == last_value(node.children@.take(n as int)),
        decreases n,
    {
        proof {
            assert(node.children@.take(n as int).drop_last() =~= node.children@.take(n - 1));
            assert(node.children@.take(n as int).last() == node.children@[n - 1]);
        }
        n -= 1;
        if node.children[n].named && !node.children[n].is_kind("variable_declaration") {
            return Some(&node.children[n]);
        }
    }
    None
}

fn find_declared_name(node: &SyntaxNode) -> (name: Option<String>)
    ensures
        text::optional(name) == declared_name(*node),
{
    match node.child_of_kind("variable_declaration") {
        Some(declaration) => match declaration.child_of_kind("identifier") {
            Some(name) => Some(name.trimmed().to_owned()),
            None => None,
        },
        None => None,
    }
}

fn lower_property_declaration(node: &SyntaxNode) -> (stmt: Stmt)
    ensures
        stmt@ == property_stmt(*node),
{
    match (find_declared_name(node), find_last_value(node)) {
        (Some(lhs), Some(value)) => {
            if node.child_of_kind("=").is_none() {
                return shape::other_stmt(node);
            }
            if value.is_kind("call_expression") {
                if let Some(name) = call_target_name(value) {
                    return shape::call_stmt(name, call_arg_identifiers(value), Some(lhs));
                }
            }
            Stmt::Assign { lhs, rhs: classify_rhs(value) }
        },
        _ => shape::other_stmt(node),
    }
}

fn lower_bare_call(node: &SyntaxNode) -> (stmt: Stmt)
    ensures
        stmt@ == bare_call_stmt(*node),
{
    match call_target_name(node) {
        Some(name) => shape::call_stmt(name, call_arg_identifiers(node), None),
        None => shape::other_stmt(node),
    }
}

fn recognize_null_guard(cond: &SyntaxNode) -> (guard: Option<(String, GuardOp)>)
    ensures
        match guard {
            Some((var, op)) => null_guard(*cond) == Some((var@, op)),
            None => null_guard(*cond) is None,
        },
{
    if !cond.is_kind("binary_expression") {
        return None;
    }
    match (cond.child_by_role("left"), cond.child_by_role("right")) {
        (Some(left), Some(right)) => {
            let var: &SyntaxNode = if null_node(right) && !null_node(left) {
                left
            } else if null_node(left) && !null_node(right) {
                right
            } else {
                return None;
            };
            match shape::find_guard_op(cond.trimmed()) {
                Some(op) => Some((var.trimmed().to_owned(), op)),
                None => None,
            }
        },
        _ => None,
    }
}

/// Lowers a function to its graph. `fn_node` is a `function_declaration`.
/// Node 0 is the entry and node 1 the exit.
pub fn lower_function(fn_node: &SyntaxNode) -> (cfg: Cfg<Stmt>)
    ensures
        cfg@ == function(*fn_node),
        cfg.well_formed(),
{
    let mut cfg: Cfg<Stmt> = shape::open_function(fn_node);
    let end: NodeId = match fn_node.child_of_kind("function_body") {
        Some(body) => match body.child_of_kind_at("block", 0) {
            Some(inner) => lower_block(&mut cfg, inner, 0),
            None => 0,
        },
        None => 0,
    };
    cfg.add_edge(end, 1, EdgeKind::Fallthrough);
    cfg
}

fn lower_block(cfg: &mut Cfg<Stmt>, node: &SyntaxNode, current: NodeId) -> (end: NodeId)
    requires
        old(cfg).open_at(current),
    ensures
        (final(cfg)@, end) == block(old(cfg)@, *node, current),
        final(cfg).open_at(end),
        final(cfg).nodes@.len() >= old(cfg).nodes@.len(),
    decreases node, 0nat,
{
    let ghost start = cfg@;
    let ghost count = cfg.nodes@.len();
    let mut now: NodeId = current;
    let mut i: usize = 0;
    proof {
        assert(node.children@.take(0) =~= Seq::empty());
    }
    while i < node.children.len()
        invariant
            0 <= i <= node.children@.len(),
            (cfg@, now) == stmts(start, node.children@.take(i as int), current),
            cfg.open_at(now),
            cfg.nodes@.len() >= count,
        decreases node.children.len() - i,
    {
        proof {
            assert(node.children@.take(i + 1).drop_last() =~= node.children@.take(i as int));
            assert(node.children@.take(i + 1).last() == node.children@[i as int]);
        }
        if node.children[i].named {
            now = lower_statement(cfg, &node.children[i], now);
        }
        i += 1;
    }
    proof {
        assert(node.children@.take(node.children@.len() as int) =~= node.children@);
    }
    now
}

fn lower_statement(cfg: &mut Cfg<Stmt>, node: &SyntaxNode, current: NodeId) -> (end: NodeId)
    requires
        old(cfg).open_at(current),
    ensures
        (final(cfg)@, end) == stmt(old(cfg)@, *node, current),
        final(cfg).open_at(end),
        final(cfg).nodes@.len() >= old(cfg).nodes@.len(),
    decreases node, 1nat,
{
    if node.is_kind("property_declaration") {
        cfg.add_stmt(current, lower_property_declaration(node));
        current
    } else if node.is_kind("return_expression") {
        shape::add_return(cfg, node, current, shape::find_first_identifier(node))
    } else if node.is_kind("if_expression") {
        lower_if(cfg, node, current)
    } else if node.is_kind("for_statement") || node.is_kind("while_statement") {
        lower_loop(cfg, node, current)
    } else if node.is_kind("call_expression") {
        cfg.add_stmt(current, lower_bare_call(node));
        current
    } else {
        cfg.add_stmt(current, shape::other_stmt(node));
        current
    }
}

fn lower_if(cfg: &mut Cfg<Stmt>, node: &SyntaxNode, current: NodeId) -> (end: NodeId)
    requires
        old(cfg).open_at(current),
    ensures
        (final(cfg)@, end) == conditional(old(cfg)@, *node, current),
        final(cfg).open_at(end),
        final(cfg).nodes@.len() >= old(cfg).nodes@.len(),
    decreases node, 0nat,
{
    cfg.add_stmt(current, Stmt::Other(text::concat2("if ", node.trimmed())));
    let guard: Option<(String, GuardOp)> = match node.child_by_role("condition") {
        Some(cond) => recognize_null_guard(cond),
        None => None,
    };
    let true_start: NodeId = shape::open_true_arm(cfg, node, current, &guard);
    let true_end: NodeId = match node.child_of_kind_at("block", 0) {
        Some(consequence) => lower_block(cfg, consequence, true_start),
        None => true_start,
    };
    match node.child_of_kind_at("block", 1) {
        Some(alternative) => {
            let false_start: NodeId = shape::open_false_arm(cfg, node, current, &guard);
            let false_end: NodeId = lower_block(cfg, alternative, false_start);
            shape::join_arms(cfg, node, current, true_end, Some(false_end))
        },
        None => {
            let skipped: Option<NodeId> = shape::open_skipped_arm(cfg, node, current, &guard);
            shape::join_arms(cfg, node, current, true_end, skipped)
        },
    }
}

fn lower_loop(cfg: &mut Cfg<Stmt>, node: &SyntaxNode, current: NodeId) -> (end: NodeId)
    requires
        old(cfg).open_at(current),
    ensures
        (final(cfg)@, end) == any_loop(old(cfg)@, *node, current),
        final(cfg).open_at(end),
        final(cfg).nodes@.len() >= old(cfg).nodes@.len(),
    decreases node, 0nat,
{
    let start: NodeId = shape::open_loop_body(cfg, node, current);
    let end: NodeId = match node.child_of_kind_at("block", 0) {
        Some(body) => lower_block(cfg, body, start),
        None => start,
    };
    shape::close_loop(cfg, node, current, end)
}

/// A statement is lowered into the node `at`, and the outcome is part of `h`.
pub open spec fn placed_at(node: SyntaxNode, at: NodeId, h: GraphView) -> bool {
    exists|g: GraphView| at < g.nodes.len() && cfg::grown(#[trigger] stmt(g, node, at).0, h)
}

/// A statement is lowered into some node, and the outcome is part of `h`.
pub open spec fn placed(node: SyntaxNode, h: GraphView) -> bool {
    exists|at: NodeId| #[trigger] placed_at(node, at, h)
}

/// Every statement of a block is part of `h`, the first of them in the node `at`.
pub open spec fn block_placed(node: SyntaxNode, at: NodeId, h: GraphView) -> bool {
    forall|i: int|
        0 <= i < node.children@.len() && (#[trigger] node.children@[i]).named ==> placed(
            node.children@[i],
            h,
        ) && ((forall|j: int| 0 <= j < i ==> !(#[trigger] node.children@[j]).named) ==> placed_at(
            node.children@[i],
            at,
            h,
        ))
}

/// A function has a body that is a block.
pub open spec fn has_body(fn_node: SyntaxNode) -> bool {
    exists|i: int, j: int|
        #![trigger fn_node.children@[i].children@[j]]
        0 <= i < fn_node.children@.len() && i == syntax::kind_index(
            fn_node.children@,
            "function_body"@,
        ) && 0 <= j < fn_node.children@[i].children@.len() && j == syntax::nth_kind_index(
            fn_node.children@[i].children@,
            "block"@,
            0,
        )
}

/// The block that is a function's body.
pub open spec fn body_of(fn_node: SyntaxNode) -> SyntaxNode {
    let outer = fn_node.children@[syntax::kind_index(fn_node.children@, "function_body"@) as int];
    outer.children@[syntax::nth_kind_index(outer.children@, "block"@, 0) as int]
}

/// Where the arms of a conditional stand: behind a true and a false edge from one
/// node, and both are part of `h`. The true arm knows what the condition says
/// of a variable; the false arm knows that one which was compared with `==` is not
/// null.
pub open spec fn arms_placed(
    node: SyntaxNode,
    at: NodeId,
    yes: NodeId,
    no: NodeId,
    h: GraphView,
) -> bool {
    &&& cfg::joins_nodes(h, at, yes, EdgeKind::True)
    &&& (syntax::nth_kind_index(node.children@, "block"@, 0)) < node.children@.len() ==> block_placed(node.children@[syntax::nth_kind_index(node.children@, "block"@, 0) as int], yes, h)
    &&& (syntax::nth_kind_index(node.children@, "block"@, 1)) < node.children@.len() ==> cfg::joins_nodes(h, at, no, EdgeKind::False) && block_placed(node.children@[syntax::nth_kind_index(node.children@, "block"@, 1) as int], no, h)
    &&& node.has_role("condition"@) ==> (null_guard(node.role("condition"@)) matches Some((var, op))
        ==> cfg::holds_at(
        h,
        yes as int,
        StmtView::Guard { var, op, against: GuardAgainst::Nil },
    ) && (op == GuardOp::Equal ==> cfg::joins_nodes(h, at, no, EdgeKind::False) && cfg::holds_at(
        h,
        no as int,
        StmtView::Guard { var, op: GuardOp::NotEqual, against: GuardAgainst::Nil },
    )))
}

/// Where the body of a loop stands: behind a true edge from the header, which its
/// end leads back to and a false edge leads on from, and it is part of `h`.
pub open spec fn body_placed(
    node: SyntaxNode,
    header: NodeId,
    start: NodeId,
    end: NodeId,
    after: NodeId,
    h: GraphView,
) -> bool {
    &&& cfg::joins_nodes(h, header, start, EdgeKind::True)
    &&& cfg::joins_nodes(h, end, header, EdgeKind::Loop)
    &&& cfg::joins_nodes(h, header, after, EdgeKind::False)
    &&& (syntax::nth_kind_index(node.children@, "block"@, 0)) < node.children@.len() ==> block_placed(node.children@[syntax::nth_kind_index(node.children@, "block"@, 0) as int], start, h)
}

proof fn lemma_block(g: GraphView, node: SyntaxNode, current: NodeId)
    requires
        current < g.nodes.len(),
    ensures
        cfg::grown(g, block(g, node, current).0),
        block(g, node, current).1 < block(g, node, current).0.nodes.len(),
        forall|h: GraphView| #[trigger]
            cfg::grown(block(g, node, current).0, h) ==> block_placed(node, current, h),
    decreases node, 0nat,
{
    lemma_stmts(g, node.children@, current);
    assert forall|h: GraphView| #[trigger]
        cfg::grown(block(g, node, current).0, h) implies block_placed(node, current, h) by {
        assert forall|i: int|
            0 <= i < node.children@.len() && (#[trigger] node.children@[i]).named implies placed(
            node.children@[i],
            h,
        ) && ((forall|j: int| 0 <= j < i ==> !(#[trigger] node.children@[j]).named) ==> placed_at(
            node.children@[i],
            current,
            h,
        )) by {
            lemma_stmts_placed(g, node.children@, current, h, i);
        }
    }
}

proof fn lemma_stmts(g: GraphView, nodes: Seq<SyntaxNode>, current: NodeId)
    requires
        current < g.nodes.len(),
    ensures
        cfg::grown(g, stmts(g, nodes, current).0),
        stmts(g, nodes, current).1 < stmts(g, nodes, current).0.nodes.len(),
    decreases nodes, 0nat,
{
    if nodes.len() == 0 {
        let none = StmtView::Return { value: None };
        cfg::lemma_steps_grow(g, 0, current, none, current, EdgeKind::True);
    } else {
        lemma_stmts(g, nodes.drop_last(), current);
        let (h, now) = stmts(g, nodes.drop_last(), current);
        if nodes.last().named {
            lemma_stmt(h, nodes.last(), now);
            cfg::lemma_grown_twice(g, h, stmt(h, nodes.last(), now).0);
        }
    }
}

proof fn lemma_stmts_placed(
    g: GraphView,
    nodes: Seq<SyntaxNode>,
    current: NodeId,
    h: GraphView,
    i: int,
)
    requires
        current < g.nodes.len(),
        cfg::grown(stmts(g, nodes, current).0, h),
        0 <= i < nodes.len(),
        nodes[i].named,
    ensures
        placed(nodes[i], h),
        (forall|j: int| 0 <= j < i ==> !(#[trigger] nodes[j]).named) ==> placed_at(
            nodes[i],
            current,
            h,
        ),
    decreases nodes, 1nat,
{
    let rest = nodes.drop_last();
    let (mid, now) = stmts(g, rest, current);
    lemma_stmts(g, rest, current);
    if i == nodes.len() - 1 {
        assert(placed_at(nodes[i], now, h)) by {
            assert(cfg::grown(stmt(mid, nodes[i], now).0, h));
        }
        if forall|j: int| 0 <= j < i ==> !(#[trigger] nodes[j]).named {
            lemma_unnamed(g, rest, current);
        }
    } else {
        if nodes.last().named {
            lemma_stmt(mid, nodes.last(), now);
            cfg::lemma_grown_twice(mid, stmt(mid, nodes.last(), now).0, h);
        }
        assert(rest[i] == nodes[i]);
        lemma_stmts_placed(g, rest, current, h, i);
        if forall|j: int| 0 <= j < i ==> !(#[trigger] nodes[j]).named {
            assert forall|j: int| 0 <= j < i implies !(#[trigger] rest[j]).named by {
                assert(rest[j] == nodes[j]);
            }
        }
    }
}

proof fn lemma_unnamed(g: GraphView, nodes: Seq<SyntaxNode>, current: NodeId)
    requires
        forall|j: int| 0 <= j < nodes.len() ==> !(#[trigger] nodes[j]).named,
    ensures
        stmts(g, nodes, current) == (g, current),
    decreases nodes.len(),
{
    if nodes.len() > 0 {
        assert(!nodes[nodes.len() - 1].named);
        assert forall|j: int| 0 <= j < nodes.drop_last().len() implies !(
        #[trigger] nodes.drop_last()[j]).named by {
            assert(nodes.drop_last()[j] == nodes[j]);
        }
        lemma_unnamed(g, nodes.drop_last(), current);
    }
}

proof fn lemma_stmt(g: GraphView, node: SyntaxNode, current: NodeId)
    requires
        current < g.nodes.len(),
    ensures
        cfg::grown(g, stmt(g, node, current).0),
        stmt(g, node, current).1 < stmt(g, node, current).0.nodes.len(),
    decreases node, 1nat,
{
    if node.kind@ == "return_expression"@ {
        shape::a_return_leads_to_the_exit(g, node, current, shape::first_identifier(node));
    }
    if node.kind@ == "if_expression"@ {
        lemma_conditional(g, node, current);
    }
    if (node.kind@ == "for_statement"@ || node.kind@ == "while_statement"@) {
        lemma_loop(g, node, current);
    }
    cfg::lemma_steps_grow(g, 0, current, shape::other(node), current, EdgeKind::True);
    cfg::lemma_steps_grow(g, 0, current, property_stmt(node), current, EdgeKind::True);
    cfg::lemma_steps_grow(g, 0, current, bare_call_stmt(node), current, EdgeKind::True);
}

proof fn lemma_conditional(g: GraphView, node: SyntaxNode, current: NodeId)
    requires
        current < g.nodes.len(),
    ensures
        cfg::grown(g, conditional(g, node, current).0),
        conditional(g, node, current).1 < conditional(g, node, current).0.nodes.len(),
        exists|yes: NodeId, no: NodeId| #[trigger]
            arms_placed(node, current, yes, no, conditional(g, node, current).0),
        cfg::holds_at(
            conditional(g, node, current).0,
            current as int,
            StmtView::Other("if "@ + text::trimmed(node.text@)),
        ),
    decreases node, 0nat,
{
    let h = conditional(g, node, current).0;
    let asked = StmtView::Other("if "@ + text::trimmed(node.text@));
    cfg::lemma_steps_grow(g, 0, current, asked, current, EdgeKind::True);
    let g2 = g.with_stmt(current, asked);
    let guard = if node.has_role("condition"@) {
        null_guard(node.role("condition"@))
    } else {
        None
    };
    shape::arms_begin_behind_their_edges(g2, node, current, guard);
    let (g3, yes) = shape::true_arm(g2, node, current, guard);
    let (g4, true_end) = if (syntax::nth_kind_index(node.children@, "block"@, 0)) < node.children@.len() {
        block(g3, node.children@[syntax::nth_kind_index(node.children@, "block"@, 0) as int], yes)
    } else {
        (g3, yes)
    };
    cfg::lemma_steps_grow(g3, 0, yes, asked, yes, EdgeKind::True);
    let second = syntax::nth_kind_index(node.children@, "block"@, 1) as int;
    if (syntax::nth_kind_index(node.children@, "block"@, 0)) < node.children@.len() {
        lemma_block(g3, node.children@[syntax::nth_kind_index(node.children@, "block"@, 0) as int], yes);
    }
    shape::arms_begin_behind_their_edges(g4, node, current, guard);
    cfg::lemma_steps_grow(g4, 0, current, asked, current, EdgeKind::True);
    let (g5, no, false_end) = if second < node.children@.len() {
        let (a, no) = shape::false_arm(g4, node, current, guard);
        let (b, end) = block(a, node.children@[second], no);
        (b, no, Some(end))
    } else {
        let (a, skipped) = shape::skipped_arm(g4, node, current, guard);
        (
            a,
            match skipped {
                Some(no) => no,
                None => 0,
            },
            skipped,
        )
    };
    if second < node.children@.len() {
        let (a, n) = shape::false_arm(g4, node, current, guard);
        lemma_block(a, node.children@[second], n);
        cfg::lemma_grown_twice(g4, a, g5);
        cfg::lemma_grown_keeps(a, g5, 0, asked, (current, no, EdgeKind::False));
        if let Some((var, op)) = guard {
            let denied = StmtView::Guard { var, op: GuardOp::NotEqual, against: GuardAgainst::Nil };
            cfg::lemma_grown_keeps(a, g5, no as int, denied, (current, no, EdgeKind::False));
        }
    }
    shape::arms_meet(g5, node, current, true_end, false_end);
    cfg::lemma_grown_twice(g4, g5, h);
    cfg::lemma_grown_twice(g3, g4, h);
    cfg::lemma_grown_twice(g2, g3, h);
    cfg::lemma_grown_twice(g, g2, h);
    cfg::lemma_grown_keeps(g3, h, 0, asked, (current, yes, EdgeKind::True));
    cfg::lemma_grown_keeps(g5, h, 0, asked, (current, no, EdgeKind::False));
    cfg::lemma_grown_keeps(g2, h, current as int, asked, (current, yes, EdgeKind::True));
    if let Some((var, op)) = guard {
        let said = StmtView::Guard { var, op, against: GuardAgainst::Nil };
        let denied = StmtView::Guard { var, op: GuardOp::NotEqual, against: GuardAgainst::Nil };
        cfg::lemma_grown_keeps(g3, h, yes as int, said, (current, yes, EdgeKind::True));
        cfg::lemma_grown_keeps(g5, h, no as int, denied, (current, no, EdgeKind::False));
    }
    assert(arms_placed(node, current, yes, no, h));
}

proof fn lemma_loop(g: GraphView, node: SyntaxNode, current: NodeId)
    requires
        current < g.nodes.len(),
    ensures
        cfg::grown(g, any_loop(g, node, current).0),
        any_loop(g, node, current).1 < any_loop(g, node, current).0.nodes.len(),
        exists|start: NodeId, end: NodeId| #[trigger]
            body_placed(
                node,
                current,
                start,
                end,
                any_loop(g, node, current).1,
                any_loop(g, node, current).0,
            ),
    decreases node, 0nat,
{
    let (h, after) = any_loop(g, node, current);
    let any = shape::other(node);
    shape::loops_lead_back(g, node, current, current);
    let (g1, start) = shape::loop_body(g, node, current);
    cfg::lemma_steps_grow(g1, 0, start, any, start, EdgeKind::True);
    let (g2, end) = if (syntax::nth_kind_index(node.children@, "block"@, 0)) < node.children@.len() {
        block(g1, node.children@[syntax::nth_kind_index(node.children@, "block"@, 0) as int], start)
    } else {
        (g1, start)
    };
    if (syntax::nth_kind_index(node.children@, "block"@, 0)) < node.children@.len() {
        lemma_block(g1, node.children@[syntax::nth_kind_index(node.children@, "block"@, 0) as int], start);
    }
    cfg::lemma_grown_twice(g, g1, g2);
    shape::loops_lead_back(g2, node, current, end);
    cfg::lemma_grown_twice(g, g2, h);
    cfg::lemma_grown_twice(g1, g2, h);
    cfg::lemma_grown_keeps(g1, h, 0, any, (current, start, EdgeKind::True));
    assert(body_placed(node, current, start, end, after, h));
}

proof fn lemma_placed_stays(node: SyntaxNode, at: NodeId, m: GraphView, h: GraphView)
    requires
        cfg::grown(m, h),
    ensures
        placed_at(node, at, m) ==> placed_at(node, at, h),
        placed(node, m) ==> placed(node, h),
{
    assert forall|n: NodeId| #[trigger] placed_at(node, n, m) implies placed_at(node, n, h) by {
        let g = choose|g: GraphView|
            n < g.nodes.len() && cfg::grown(#[trigger] stmt(g, node, n).0, m);
        cfg::lemma_grown_twice(stmt(g, node, n).0, m, h);
    }
}

proof fn lemma_block_stays(node: SyntaxNode, at: NodeId, m: GraphView, h: GraphView)
    requires
        cfg::grown(m, h),
        block_placed(node, at, m),
    ensures
        block_placed(node, at, h),
{
    assert forall|i: int|
        0 <= i < node.children@.len() && (#[trigger] node.children@[i]).named implies placed(
        node.children@[i],
        h,
    ) && ((forall|j: int| 0 <= j < i ==> !(#[trigger] node.children@[j]).named) ==> placed_at(
        node.children@[i],
        at,
        h,
    )) by {
        lemma_placed_stays(node.children@[i], at, m, h);
    }
}

/// What a statement that is lowered into the node `at` leaves there. A conditional
/// has both its arms in the graph, behind a true and a false edge; a loop has its
/// body in the graph; a return leads to the exit; whatever is not modelled keeps
/// its source.
pub proof fn a_statement_leaves_its_trace(node: SyntaxNode, at: NodeId, h: GraphView)
    requires
        placed_at(node, at, h),
    ensures
        node.kind@ == "if_expression"@ ==> (exists|yes: NodeId, no: NodeId| #[trigger]
            arms_placed(node, at, yes, no, h)) && (cfg::holds_at(
            h,
            at as int,
            StmtView::Other("if "@ + text::trimmed(node.text@)),
        )),
        (node.kind@ == "for_statement"@ || node.kind@ == "while_statement"@) ==> exists|start: NodeId, end: NodeId, after: NodeId| #[trigger]
            body_placed(node, at, start, end, after, h),
        node.kind@ == "return_expression"@ && node.has_named(0) && node.named_child(0).kind@
            == "identifier"@ ==> cfg::holds_at(
            h,
            at as int,
            StmtView::Return { value: Some(text::trimmed(node.named_child(0).text@)) },
        ),
        node.kind@ == "return_expression"@ && (!node.has_named(0) || node.named_child(0).kind@
            != "identifier"@) ==> cfg::holds_at(h, at as int, StmtView::Return { value: None }),
        node.kind@ == "return_expression"@ ==> cfg::joins_nodes(h, at, h.exit, EdgeKind::Fallthrough),
        node.kind@ == "property_declaration"@ ==> cfg::holds_at(h, at as int, property_stmt(node)),
        node.kind@ == "call_expression"@ ==> (call_name(node) matches Some(name) ==> cfg::holds_at(
            h,
            at as int,
            StmtView::Call {
                target: cfg::CallTargetView::Named(name),
                args: call_args(node),
                assigned_to: None,
            },
        )),
        node.kind@ != "property_declaration"@ && node.kind@ != "return_expression"@ && node.kind@ != "if_expression"@ && node.kind@ != "for_statement"@ && node.kind@ != "while_statement"@ && node.kind@ != "call_expression"@ ==> cfg::holds_at(h, at as int, StmtView::Other(text::trimmed(node.text@))),
{
    let g = choose|g: GraphView| at < g.nodes.len() && cfg::grown(#[trigger] stmt(g, node, at).0, h);
    let m = stmt(g, node, at).0;
    lemma_stmt(g, node, at);
    lemma_kinds_differ();
    if node.kind@ == "if_expression"@ {
        lemma_conditional(g, node, at);
        let (yes, no) = choose|yes: NodeId, no: NodeId| #[trigger]
            arms_placed(node, at, yes, no, m);
        let asked = StmtView::Other("if "@ + text::trimmed(node.text@));
        cfg::lemma_grown_keeps(m, h, at as int, asked, (at, yes, EdgeKind::True));
        cfg::lemma_grown_keeps(m, h, at as int, asked, (at, no, EdgeKind::False));
        if node.has_role("condition"@) {
            if let Some((var, op)) = null_guard(node.role("condition"@)) {
                let said = StmtView::Guard { var, op, against: GuardAgainst::Nil };
                let denied = StmtView::Guard {
                    var,
                    op: GuardOp::NotEqual,
                    against: GuardAgainst::Nil,
                };
                cfg::lemma_grown_keeps(m, h, yes as int, said, (at, yes, EdgeKind::True));
                cfg::lemma_grown_keeps(m, h, no as int, denied, (at, no, EdgeKind::False));
            }
        }
        if (syntax::nth_kind_index(node.children@, "block"@, 0)) < node.children@.len() {
            lemma_block_stays(node.children@[syntax::nth_kind_index(node.children@, "block"@, 0) as int], yes, m, h);
        }
        if (syntax::nth_kind_index(node.children@, "block"@, 1)) < node.children@.len() {
            lemma_block_stays(node.children@[syntax::nth_kind_index(node.children@, "block"@, 1) as int], no, m, h);
        }
        assert(arms_placed(node, at, yes, no, h));
    } else if (node.kind@ == "for_statement"@ || node.kind@ == "while_statement"@) {
        lemma_loop(g, node, at);
        let any = shape::other(node);
        let after = any_loop(g, node, at).1;
        let (start, end) = choose|start: NodeId, end: NodeId| #[trigger]
            body_placed(node, at, start, end, after, m);
        cfg::lemma_grown_keeps(m, h, 0, any, (at, start, EdgeKind::True));
        cfg::lemma_grown_keeps(m, h, 0, any, (end, at, EdgeKind::Loop));
        cfg::lemma_grown_keeps(m, h, 0, any, (at, after, EdgeKind::False));
        if (syntax::nth_kind_index(node.children@, "block"@, 0)) < node.children@.len() {
            lemma_block_stays(node.children@[syntax::nth_kind_index(node.children@, "block"@, 0) as int], start, m, h);
        }
        assert(body_placed(node, at, start, end, after, h));
    } else if node.kind@ == "return_expression"@ {
        let ret = StmtView::Return { value: shape::first_identifier(node) };
        shape::a_return_leads_to_the_exit(g, node, at, shape::first_identifier(node));
        cfg::lemma_grown_keeps(m, h, at as int, ret, (at, g.exit, EdgeKind::Fallthrough));
    } else {
        let left = if node.kind@ == "property_declaration"@ {
            property_stmt(node)
        } else if node.kind@ == "call_expression"@ {
            bare_call_stmt(node)
        } else {
            shape::other(node)
        };
        cfg::lemma_steps_grow(g, 0, at, left, at, EdgeKind::True);
        cfg::lemma_grown_keeps(m, h, at as int, left, (at, at, EdgeKind::True));
    }
}

/// A statement stands directly in another: in an arm of a conditional or in the
/// body of a loop.
pub open spec fn directly_in(inner: SyntaxNode, outer: SyntaxNode) -> bool {
    ||| outer.kind@ == "if_expression"@ && (syntax::nth_kind_index(outer.children@, "block"@, 0)) < outer.children@.len() && stands_in(
        inner,
        outer.children@[syntax::nth_kind_index(outer.children@, "block"@, 0) as int],
    )
    ||| outer.kind@ == "if_expression"@ && (syntax::nth_kind_index(outer.children@, "block"@, 1)) < outer.children@.len() && stands_in(
        inner,
        outer.children@[syntax::nth_kind_index(outer.children@, "block"@, 1) as int],
    )
    ||| (outer.kind@ == "for_statement"@ || outer.kind@ == "while_statement"@) && (syntax::nth_kind_index(outer.children@, "block"@, 0)) < outer.children@.len() && stands_in(inner, outer.children@[syntax::nth_kind_index(outer.children@, "block"@, 0) as int])
}

/// A statement is one of those of a block.
pub open spec fn stands_in(inner: SyntaxNode, node: SyntaxNode) -> bool {
    exists|i: int|
        0 <= i < node.children@.len() && (#[trigger] node.children@[i]).named && inner
            == node.children@[i]
}

/// Every statement of a function, at whatever depth it stands in conditionals and
/// loops, is part of the function's graph. `chain` leads to it from a statement of
/// the function's body, each in the one before it.
pub proof fn every_statement_is_lowered(fn_node: SyntaxNode, chain: Seq<SyntaxNode>)
    requires
        has_body(fn_node),
        chain.len() > 0,
        stands_in(chain[0], body_of(fn_node)),
        forall|i: int| 0 <= i < chain.len() - 1 ==> directly_in(#[trigger] chain[i + 1], chain[i]),
    ensures
        placed(chain.last(), function(fn_node)),
    decreases chain.len(),
{
    let h = function(fn_node);
    if chain.len() == 1 {
        functions_begin_at_their_entry(fn_node);
    } else {
        let outer = chain[chain.len() - 2];
        let inner = chain[chain.len() - 1];
        let rest = chain.drop_last();
        assert forall|i: int| 0 <= i < rest.len() - 1 implies directly_in(
            #[trigger] rest[i + 1],
            rest[i],
        ) by {
            assert(rest[i + 1] == chain[i + 1] && rest[i] == chain[i]);
        }
        every_statement_is_lowered(fn_node, rest);
        assert(chain[chain.len() - 2 + 1] == inner);
        assert(directly_in(chain[chain.len() - 2 + 1], chain[chain.len() - 2]));
        let at = choose|at: NodeId| #[trigger] placed_at(outer, at, h);
        a_statement_leaves_its_trace(outer, at, h);
        if outer.kind@ == "if_expression"@ {
            let (yes, no) = choose|yes: NodeId, no: NodeId| #[trigger]
                arms_placed(outer, at, yes, no, h);
            assert(placed_at(inner, no, h) ==> placed(inner, h));
            assert(placed_at(inner, yes, h) ==> placed(inner, h));

        } else {
            let (start, end, after) = choose|start: NodeId, end: NodeId, after: NodeId| #[trigger]
                body_placed(outer, at, start, end, after, h);
        }
    }
}

/// A function's graph has an entry and an exit of its own; the first statement of
/// the body stands in the entry.
pub proof fn functions_begin_at_their_entry(fn_node: SyntaxNode)
    ensures
        function(fn_node).entry == 0,
        function(fn_node).exit == 1,
        function(fn_node).nodes.len() >= 2,
        function(fn_node).nodes[0].source_line == fn_node.first_line(),
        function(fn_node).nodes[1].source_line == fn_node.last_line(),
        exists|end: NodeId| cfg::joins_nodes(function(fn_node), end, 1, EdgeKind::Fallthrough),
        has_body(fn_node) ==> block_placed(body_of(fn_node), 0, function(fn_node)),
{
    let h = function(fn_node);
    let g = shape::opened(fn_node);
    let any = shape::other(fn_node);
    let i = syntax::kind_index(fn_node.children@, "function_body"@) as int;
    let j = syntax::nth_kind_index(fn_node.children@[i].children@, "block"@, 0) as int;
    if i < fn_node.children@.len() && j < fn_node.children@[i].children@.len() {
        assert(fn_node.children@[i].children@[j] == body_of(fn_node));
        assert(has_body(fn_node));
    }
    let (m, end) = if has_body(fn_node) {
        block(g, body_of(fn_node), 0)
    } else {
        (g, 0)
    };
    cfg::lemma_steps_grow(g, 0, 0, any, 1, EdgeKind::Fallthrough);
    if has_body(fn_node) {
        lemma_block(g, body_of(fn_node), 0);
    }
    cfg::lemma_steps_grow(m, 0, end, any, 1, EdgeKind::Fallthrough);
    cfg::lemma_grown_twice(g, m, h);
    assert(h.nodes[0].source_line == g.nodes[0].source_line);
    assert(h.nodes[1].source_line == g.nodes[1].source_line);
}

/// A statement that is lowered into the node `at` ends in the node `end`, and the
/// outcome is part of `h`.
pub open spec fn runs(node: SyntaxNode, at: NodeId, end: NodeId, h: GraphView) -> bool {
    exists|g: GraphView|
        at < g.nodes.len() && end == (#[trigger] stmt(g, node, at)).1 && cfg::grown(
            stmt(g, node, at).0,
            h,
        )
}

/// Statements follow each other: each begins in the node in which the one before it
/// ends. `ends` gives those nodes.
pub open spec fn follow(nodes: Seq<SyntaxNode>, at: NodeId, ends: Seq<NodeId>, h: GraphView) -> bool {
    &&& ends.len() == nodes.len() + 1
    &&& ends[0] == at
    &&& forall|i: int|
        0 <= i < nodes.len() ==> if (#[trigger] nodes[i]).named {
            runs(nodes[i], ends[i], ends[i + 1], h)
        } else {
            ends[i] == ends[i + 1]
        }
}

/// The statements of a block follow each other from the node `at` to the node `end`.
pub open spec fn block_runs(node: SyntaxNode, at: NodeId, end: NodeId, h: GraphView) -> bool {
    exists|ends: Seq<NodeId>| #[trigger]
        follow(node.children@, at, ends, h) && ends.last() == end
}

/// The statements of a list follow each other.
pub proof fn statements_follow_each_other(
    g: GraphView,
    nodes: Seq<SyntaxNode>,
    current: NodeId,
    h: GraphView,
)
    requires
        current < g.nodes.len(),
        cfg::grown(stmts(g, nodes, current).0, h),
    ensures
        exists|ends: Seq<NodeId>| #[trigger]
            follow(nodes, current, ends, h) && ends.last() == stmts(g, nodes, current).1,
    decreases nodes.len(),
{
    if nodes.len() == 0 {
        let ends = seq![current];
        assert(follow(nodes, current, ends, h));
    } else {
        let rest = nodes.drop_last();
        let (mid, now) = stmts(g, rest, current);
        lemma_stmts(g, rest, current);
        let next = stmts(g, nodes, current).1;
        if nodes.last().named {
            lemma_stmt(mid, nodes.last(), now);
            cfg::lemma_grown_twice(mid, stmt(mid, nodes.last(), now).0, h);
            assert(runs(nodes.last(), now, next, h));
        }
        statements_follow_each_other(g, rest, current, h);
        let less = choose|ends: Seq<NodeId>| #[trigger]
            follow(rest, current, ends, h) && ends.last() == now;
        let ends = less.push(next);
        assert forall|i: int| 0 <= i < nodes.len() implies if (#[trigger] nodes[i]).named {
            runs(nodes[i], ends[i], ends[i + 1], h)
        } else {
            ends[i] == ends[i + 1]
        } by {
            if i < rest.len() {
                assert(rest[i] == nodes[i]);
            }
        }
        assert(follow(nodes, current, ends, h));
    }
}

proof fn lemma_block_runs(g: GraphView, node: SyntaxNode, current: NodeId, h: GraphView)
    requires
        current < g.nodes.len(),
        cfg::grown(block(g, node, current).0, h),
    ensures
        block_runs(node, current, block(g, node, current).1, h),
{
    statements_follow_each_other(g, node.children@, current, h);
}

/// How a conditional runs from the node `at` to the node `end`: over a true edge,
/// through its arm and on to the end, and over a false edge, through the other arm
/// or through none, and on to the same end.
pub open spec fn arms_join(
    node: SyntaxNode,
    at: NodeId,
    yes: NodeId,
    yes_end: NodeId,
    no: NodeId,
    no_end: NodeId,
    end: NodeId,
    h: GraphView,
) -> bool {
    &&& cfg::joins_nodes(h, at, yes, EdgeKind::True)
    &&& (syntax::nth_kind_index(node.children@, "block"@, 0)) < node.children@.len() ==> block_runs(node.children@[syntax::nth_kind_index(node.children@, "block"@, 0) as int], yes, yes_end, h)
    &&& !((syntax::nth_kind_index(node.children@, "block"@, 0)) < node.children@.len()) ==> yes_end == yes
    &&& cfg::joins_nodes(h, yes_end, end, EdgeKind::Fallthrough)
    &&& (syntax::nth_kind_index(node.children@, "block"@, 1)) < node.children@.len() ==> cfg::joins_nodes(h, at, no, EdgeKind::False) && cfg::joins_nodes(
        h,
        no_end,
        end,
        EdgeKind::Fallthrough,
    )
    &&& (syntax::nth_kind_index(node.children@, "block"@, 1)) < node.children@.len() ==> block_runs(node.children@[syntax::nth_kind_index(node.children@, "block"@, 1) as int], no, no_end, h)
    &&& !((syntax::nth_kind_index(node.children@, "block"@, 1)) < node.children@.len()) ==> cfg::joins_nodes(h, at, end, EdgeKind::False) || (cfg::joins_nodes(
        h,
        at,
        no,
        EdgeKind::False,
    ) && cfg::joins_nodes(h, no, end, EdgeKind::Fallthrough))
}

/// A conditional runs through one of its arms, and both meet behind it.
pub proof fn conditionals_run_through_their_arms(
    node: SyntaxNode,
    at: NodeId,
    end: NodeId,
    h: GraphView,
)
    requires
        node.kind@ == "if_expression"@,
        runs(node, at, end, h),
    ensures
        exists|yes: NodeId, yes_end: NodeId, no: NodeId, no_end: NodeId| #[trigger]
            arms_join(node, at, yes, yes_end, no, no_end, end, h),
{
    let g = choose|g: GraphView|
        at < g.nodes.len() && end == (#[trigger] stmt(g, node, at)).1 && cfg::grown(
            stmt(g, node, at).0,
            h,
        );
    lemma_kinds_differ();
    let m = stmt(g, node, at).0;
    assert(stmt(g, node, at) == conditional(g, node, at));
    let current = at;
    let asked = StmtView::Other("if "@ + text::trimmed(node.text@));
    cfg::lemma_steps_grow(g, 0, current, asked, current, EdgeKind::True);
    let g2 = g.with_stmt(current, asked);
    let guard = if node.has_role("condition"@) {
        null_guard(node.role("condition"@))
    } else {
        None
    };
    shape::arms_begin_behind_their_edges(g2, node, current, guard);
    let (g3, yes) = shape::true_arm(g2, node, current, guard);
    let (g4, true_end) = if (syntax::nth_kind_index(node.children@, "block"@, 0)) < node.children@.len() {
        block(g3, node.children@[syntax::nth_kind_index(node.children@, "block"@, 0) as int], yes)
    } else {
        (g3, yes)
    };
    cfg::lemma_steps_grow(g3, 0, yes, asked, yes, EdgeKind::True);
    let second = syntax::nth_kind_index(node.children@, "block"@, 1) as int;
    if (syntax::nth_kind_index(node.children@, "block"@, 0)) < node.children@.len() {
        lemma_block(g3, node.children@[syntax::nth_kind_index(node.children@, "block"@, 0) as int], yes);
    }
    shape::arms_begin_behind_their_edges(g4, node, current, guard);
    cfg::lemma_steps_grow(g4, 0, current, asked, current, EdgeKind::True);
    let (g5, no, false_end) = if second < node.children@.len() {
        let (a, no) = shape::false_arm(g4, node, current, guard);
        let (b, end) = block(a, node.children@[second], no);
        (b, no, Some(end))
    } else {
        let (a, skipped) = shape::skipped_arm(g4, node, current, guard);
        (
            a,
            match skipped {
                Some(no) => no,
                None => 0,
            },
            skipped,
        )
    };
    if second < node.children@.len() {
        let (a, n) = shape::false_arm(g4, node, current, guard);
        lemma_block(a, node.children@[second], n);
        cfg::lemma_grown_twice(g4, a, g5);
        cfg::lemma_grown_keeps(a, g5, 0, asked, (current, no, EdgeKind::False));
        if let Some((var, op)) = guard {
            let denied = StmtView::Guard { var, op: GuardOp::NotEqual, against: GuardAgainst::Nil };
            cfg::lemma_grown_keeps(a, g5, no as int, denied, (current, no, EdgeKind::False));
        }
    }
    shape::arms_meet(g5, node, current, true_end, false_end);
    let no_end = match false_end {
        Some(e) => e,
        None => 0,
    };
    cfg::lemma_grown_twice(g5, m, h);
    cfg::lemma_grown_twice(g4, g5, h);
    cfg::lemma_grown_twice(g3, g4, h);
    cfg::lemma_grown_keeps(g3, h, 0, asked, (current, yes, EdgeKind::True));
    cfg::lemma_grown_keeps(g5, h, 0, asked, (current, no, EdgeKind::False));
    cfg::lemma_grown_keeps(m, h, 0, asked, (true_end, end, EdgeKind::Fallthrough));
    cfg::lemma_grown_keeps(m, h, 0, asked, (no_end, end, EdgeKind::Fallthrough));
    cfg::lemma_grown_keeps(m, h, 0, asked, (current, end, EdgeKind::False));
    if (syntax::nth_kind_index(node.children@, "block"@, 0)) < node.children@.len() {
        lemma_block_runs(g3, node.children@[syntax::nth_kind_index(node.children@, "block"@, 0) as int], yes, h);
    }
    if second < node.children@.len() {
        let a = shape::false_arm(g4, node, current, guard).0;
        lemma_block_runs(a, node.children@[second], no, h);
    }
    assert(arms_join(node, at, yes, true_end, no, no_end, end, h));
}

/// How a loop runs: over a true edge from its header through its body and back, and
/// over a false edge on to its end.
pub open spec fn body_loops(
    node: SyntaxNode,
    header: NodeId,
    start: NodeId,
    body_end: NodeId,
    end: NodeId,
    h: GraphView,
) -> bool {
    &&& cfg::joins_nodes(h, header, start, EdgeKind::True)
    &&& (syntax::nth_kind_index(node.children@, "block"@, 0)) < node.children@.len() ==> block_runs(node.children@[syntax::nth_kind_index(node.children@, "block"@, 0) as int], start, body_end, h)
    &&& !((syntax::nth_kind_index(node.children@, "block"@, 0)) < node.children@.len()) ==> body_end == start
    &&& cfg::joins_nodes(h, body_end, header, EdgeKind::Loop)
    &&& cfg::joins_nodes(h, header, end, EdgeKind::False)
}

/// A loop runs through its body and back, and ends behind its header.
pub proof fn loops_run_through_their_body(
    node: SyntaxNode,
    at: NodeId,
    end: NodeId,
    h: GraphView,
)
    requires
        (node.kind@ == "for_statement"@ || node.kind@ == "while_statement"@),
        runs(node, at, end, h),
    ensures
        exists|start: NodeId, body_end: NodeId| #[trigger]
            body_loops(node, at, start, body_end, end, h),
{
    let g = choose|g: GraphView|
        at < g.nodes.len() && end == (#[trigger] stmt(g, node, at)).1 && cfg::grown(
            stmt(g, node, at).0,
            h,
        );
    lemma_kinds_differ();
    let m = stmt(g, node, at).0;
    assert(stmt(g, node, at) == any_loop(g, node, at));
    let any = shape::other(node);
    shape::loops_lead_back(g, node, at, at);
    let (g0, start) = shape::loop_body(g, node, at);
    cfg::lemma_steps_grow(g0, 0, start, any, start, EdgeKind::True);
    let g1 = g0;
    cfg::lemma_grown_twice(g, g0, g1);
    let (g2, body_end) = if (syntax::nth_kind_index(node.children@, "block"@, 0)) < node.children@.len() {
        block(g1, node.children@[syntax::nth_kind_index(node.children@, "block"@, 0) as int], start)
    } else {
        (g1, start)
    };
    cfg::lemma_steps_grow(g1, 0, start, any, start, EdgeKind::True);
    if (syntax::nth_kind_index(node.children@, "block"@, 0)) < node.children@.len() {
        lemma_block(g1, node.children@[syntax::nth_kind_index(node.children@, "block"@, 0) as int], start);
    }
    cfg::lemma_grown_twice(g, g1, g2);
    shape::loops_lead_back(g2, node, at, body_end);
    cfg::lemma_grown_twice(g2, m, h);
    cfg::lemma_grown_twice(g1, g2, h);
    cfg::lemma_grown_twice(g0, g1, h);
    cfg::lemma_grown_keeps(g0, h, 0, any, (at, start, EdgeKind::True));
    cfg::lemma_grown_keeps(m, h, 0, any, (body_end, at, EdgeKind::Loop));
    cfg::lemma_grown_keeps(m, h, 0, any, (at, end, EdgeKind::False));
    if (syntax::nth_kind_index(node.children@, "block"@, 0)) < node.children@.len() {
        lemma_block_runs(g1, node.children@[syntax::nth_kind_index(node.children@, "block"@, 0) as int], start, h);
    }
    assert(body_loops(node, at, start, body_end, end, h));
}

/// Where a statement ends that is neither a conditional, a loop nor a return: where
/// it began. What follows a return stands in a node that nothing leads to from it.
pub proof fn plain_statements_end_where_they_begin(
    node: SyntaxNode,
    at: NodeId,
    end: NodeId,
    h: GraphView,
)
    requires
        runs(node, at, end, h),
        node.kind@ != "if_expression"@,
        !(node.kind@ == "for_statement"@ || node.kind@ == "while_statement"@),
    ensures
        node.kind@ != "return_expression"@ ==> end == at,
        node.kind@ == "return_expression"@ && h.nodes.len() <= NodeId::MAX ==> end != at,
{
    let g = choose|g: GraphView|
        at < g.nodes.len() && end == (#[trigger] stmt(g, node, at)).1 && cfg::grown(
            stmt(g, node, at).0,
            h,
        );
    lemma_kinds_differ();

}

/// A function runs through its body from its entry, and from the end of that to its
/// exit.
pub proof fn functions_run_through_their_body(fn_node: SyntaxNode)
    requires
        has_body(fn_node),
    ensures
        exists|end: NodeId| #[trigger]
            block_runs(body_of(fn_node), 0, end, function(fn_node)) && cfg::joins_nodes(
                function(fn_node),
                end,
                1,
                EdgeKind::Fallthrough,
            ),
{
    let h = function(fn_node);
    let g = shape::opened(fn_node);
    let i = syntax::kind_index(fn_node.children@, "function_body"@) as int;
    let j = syntax::nth_kind_index(fn_node.children@[i].children@, "block"@, 0) as int;
    if i < fn_node.children@.len() && j < fn_node.children@[i].children@.len() {
        assert(fn_node.children@[i].children@[j] == body_of(fn_node));
        assert(has_body(fn_node));
    }
    let (m, end) = block(g, body_of(fn_node), 0);
    lemma_block(g, body_of(fn_node), 0);
    cfg::lemma_steps_grow(m, 0, end, shape::other(fn_node), 1, EdgeKind::Fallthrough);
    lemma_block_runs(g, body_of(fn_node), 0, h);
}

proof fn lemma_kinds_differ()
    ensures
        "property_declaration"@ != "return_expression"@,
        "property_declaration"@ != "if_expression"@,
        "property_declaration"@ != "for_statement"@,
        "property_declaration"@ != "while_statement"@,
        "property_declaration"@ != "call_expression"@,
        "return_expression"@ != "if_expression"@,
        "return_expression"@ != "for_statement"@,
        "return_expression"@ != "while_statement"@,
        "return_expression"@ != "call_expression"@,
        "if_expression"@ != "for_statement"@,
        "if_expression"@ != "while_statement"@,
        "if_expression"@ != "call_expression"@,
        "for_statement"@ != "while_statement"@,
        "for_statement"@ != "call_expression"@,
        "while_statement"@ != "call_expression"@,
{
    reveal_strlit("property_declaration");
    reveal_strlit("return_expression");
    reveal_strlit("if_expression");
    reveal_strlit("for_statement");
    reveal_strlit("while_statement");
    reveal_strlit("call_expression");
    assert("property_declaration"@.len() != "return_expression"@.len());
    assert("property_declaration"@.len() != "if_expression"@.len());
    assert("property_declaration"@.len() != "for_statement"@.len());
    assert("property_declaration"@.len() != "while_statement"@.len());
    assert("property_declaration"@.len() != "call_expression"@.len());
    assert("return_expression"@.len() != "if_expression"@.len());
    assert("return_expression"@.len() != "for_statement"@.len());
    assert("return_expression"@.len() != "while_statement"@.len());
    assert("return_expression"@.len() != "call_expression"@.len());
    assert("if_expression"@[0] != "for_statement"@[0]);
    assert("if_expression"@.len() != "while_statement"@.len());
    assert("if_expression"@.len() != "call_expression"@.len());
    assert("for_statement"@.len() != "while_statement"@.len());
    assert("for_statement"@.len() != "call_expression"@.len());
    assert("while_statement"@[0] != "call_expression"@[0]);
}

/// What a call is called: an identifier, or what stands in front of a dot, the dot
/// and an identifier.
pub proof fn calls_are_named_by_what_they_call(call: SyntaxNode)
    requires
        call.has_named(0),
    ensures
        ({
            let callee = call.named_child(0);
            &&& callee.kind@ == "identifier"@ ==> call_name(call) == Some(
                text::trimmed(callee.text@),
            )
            &&& callee.kind@ == "navigation_expression"@ && callee.has_named(0)
                && callee.has_named(1) && callee.named_child(1).kind@ == "identifier"@ ==> call_name(
                call,
            ) == Some(
                text::trimmed(callee.named_child(0).text@) + "."@ + text::trimmed(
                    callee.named_child(1).text@,
                ),
            )
            &&& callee.kind@ != "identifier"@ && callee.kind@ != "navigation_expression"@
                ==> call_name(call) is None
        }),
{
    reveal_strlit("identifier");
    reveal_strlit("navigation_expression");
    assert("identifier"@.len() != "navigation_expression"@.len());
}

/// The arguments of a call are the first identifiers of the value arguments of its
/// list, in order.
pub proof fn arguments_are_identifiers(call: SyntaxNode, i: int)
    requires
        0 <= i < call.children@.len(),
        i == syntax::kind_index(call.children@, "value_arguments"@),
    ensures
        shape::picked(
            call.children@[i].children@,
            |n: SyntaxNode|
                if n.kind@ == "value_argument"@ && syntax::kind_index(n.children@, "identifier"@)
                    < n.children@.len() {
                    Some(
                        text::trimmed(
                            n.children@[syntax::kind_index(n.children@, "identifier"@) as int].text@,
                        ),
                    )
                } else {
                    None
                },
            call_args(call),
        ),
{
    lemma_args_picked(call.children@[i].children@);
}

proof fn lemma_args_picked(nodes: Seq<SyntaxNode>)
    ensures
        shape::picked(
            nodes,
            |n: SyntaxNode|
                if n.kind@ == "value_argument"@ && syntax::kind_index(n.children@, "identifier"@)
                    < n.children@.len() {
                    Some(
                        text::trimmed(
                            n.children@[syntax::kind_index(n.children@, "identifier"@) as int].text@,
                        ),
                    )
                } else {
                    None
                },
            args_among(nodes),
        ),
    decreases nodes.len(),
{
    let says = |n: SyntaxNode|
        if n.kind@ == "value_argument"@ && syntax::kind_index(n.children@, "identifier"@)
            < n.children@.len() {
            Some(
                text::trimmed(
                    n.children@[syntax::kind_index(n.children@, "identifier"@) as int].text@,
                ),
            )
        } else {
            None
        };
    if nodes.len() == 0 {
        shape::lemma_picked_none(says);
        assert(nodes =~= Seq::empty());
        assert(args_among(nodes) =~= Seq::<Seq<char>>::empty());
    } else {
        lemma_args_picked(nodes.drop_last());
        shape::lemma_picked_push(
            nodes.drop_last(),
            nodes.last(),
            says,
            args_among(nodes.drop_last()),
        );
        assert(nodes.drop_last().push(nodes.last()) =~= nodes);
    }
}

/// What the right side of an assignment is taken for: `null` is an identifier of
/// that text.
pub proof fn right_sides_are_recognised(node: SyntaxNode)
    ensures
        node.kind@ == "identifier"@ && text::trimmed(node.text@) == "null"@ ==> rhs_of(node)
            == RhsView::NilLiteral,
        node.kind@ == "identifier"@ && text::trimmed(node.text@) != "null"@ ==> rhs_of(node)
            == RhsView::Var(text::trimmed(node.text@)),
        node.kind@ != "identifier"@ ==> rhs_of(node) == RhsView::Unknown,
{
}

/// What a property declaration becomes. Its value is the last named child that is
/// no declaration of a variable: a call of a named function keeps its result in the
/// property; everything else is an assignment. Without an `=` it is not modelled.
pub proof fn declarations_keep_their_name(node: SyntaxNode, lhs: Seq<char>, v: int)
    requires
        declared_name(node) == Some(lhs),
        0 <= v < node.children@.len(),
        node.children@[v].named && node.children@[v].kind@ != "variable_declaration"@,
        forall|j: int|
            v < j < node.children@.len() ==> !((#[trigger] node.children@[j]).named
                && node.children@[j].kind@ != "variable_declaration"@),
    ensures
        ({
            let value = node.children@[v];
            let given = exists|e: int|
                0 <= e < node.children@.len() && (#[trigger] node.children@[e]).kind@ == "="@;
            &&& !given ==> property_stmt(node) == StmtView::Other(text::trimmed(node.text@))
            &&& given && value.kind@ == "call_expression"@ ==> (call_name(value) matches Some(name)
                ==> property_stmt(node) == (StmtView::Call {
                target: cfg::CallTargetView::Named(name),
                args: call_args(value),
                assigned_to: Some(lhs),
            }))
            &&& given && value.kind@ != "call_expression"@ ==> property_stmt(node) == (
            StmtView::Assign { lhs, rhs: rhs_of(value) })
        }),
{
    lemma_last_value(node.children@, v);
    syntax::the_first_of_a_kind_is_found(node.children@, "="@);
}

proof fn lemma_last_value(nodes: Seq<SyntaxNode>, v: int)
    requires
        0 <= v < nodes.len(),
        nodes[v].named && nodes[v].kind@ != "variable_declaration"@,
        forall|j: int|
            v < j < nodes.len() ==> !((#[trigger] nodes[j]).named && nodes[j].kind@
                != "variable_declaration"@),
    ensures
        last_value(nodes) == Some(nodes[v]),
    decreases nodes.len(),
{
    let rest = nodes.drop_last();
    if v < nodes.len() - 1 {
        assert(!(nodes[nodes.len() - 1].named && nodes[nodes.len() - 1].kind@
            != "variable_declaration"@));
        assert(rest[v] == nodes[v]);
        assert forall|j: int| v < j < rest.len() implies !((#[trigger] rest[j]).named
            && rest[j].kind@ != "variable_declaration"@) by {
            assert(rest[j] == nodes[j]);
        }
        lemma_last_value(rest, v);
    }
}

/// The name that a property declares is the first identifier of its first variable
/// declaration.
pub proof fn properties_declare_their_first_identifier(node: SyntaxNode, i: int, j: int)
    requires
        0 <= i < node.children@.len(),
        node.children@[i].kind@ == "variable_declaration"@,
        forall|k: int|
            0 <= k < i ==> (#[trigger] node.children@[k]).kind@ != "variable_declaration"@,
        0 <= j < node.children@[i].children@.len(),
        node.children@[i].children@[j].kind@ == "identifier"@,
        forall|k: int|
            0 <= k < j ==> (#[trigger] node.children@[i].children@[k]).kind@ != "identifier"@,
    ensures
        declared_name(node) == Some(text::trimmed(node.children@[i].children@[j].text@)),
{
    syntax::the_first_of_a_kind_is_found(node.children@, "variable_declaration"@);
    let a = syntax::kind_index(node.children@, "variable_declaration"@) as int;
    if a < i {
        assert(node.children@[a].kind@ != "variable_declaration"@);
    }
    syntax::the_first_of_a_kind_is_found(node.children@[i].children@, "identifier"@);
    let b = syntax::kind_index(node.children@[i].children@, "identifier"@) as int;
    if b < j {
        assert(node.children@[i].children@[b].kind@ != "identifier"@);
    }
}

/// What a condition says of a variable: a comparison with null, on either side, by
/// its operator.
pub proof fn comparisons_with_null_are_guards(cond: SyntaxNode)
    requires
        cond.kind@ == "binary_expression"@,
        cond.has_role("left"@),
        cond.has_role("right"@),
    ensures
        ({
            let (left, right) = (cond.role("left"@), cond.role("right"@));
            let op = shape::guard_op(text::trimmed(cond.text@));
            let null_left = left.kind@ == "identifier"@ && text::trimmed(left.text@) == "null"@;
            let null_right = right.kind@ == "identifier"@ && text::trimmed(right.text@) == "null"@;
            &&& null_right && !null_left ==> (op matches Some(o) ==> null_guard(cond) == Some(
                (text::trimmed(left.text@), o),
            ))
            &&& null_left && !null_right ==> (op matches Some(o) ==> null_guard(cond) == Some(
                (text::trimmed(right.text@), o),
            ))
            &&& null_left == null_right || op is None ==> null_guard(cond) is None
        }),
{
}

} // verus!
