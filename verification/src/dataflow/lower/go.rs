//! Lowering of Go functions.

use vstd::prelude::*;

use crate::dataflow::cfg;
use crate::dataflow::cfg::{
    Cfg, ClosureKind, EdgeKind, GraphView, GuardAgainst, GuardOp, NodeId, RhsShape, RhsView, Stmt, StmtView,
};
use crate::dataflow::lower::shape;
use crate::syntax;
use crate::syntax::SyntaxNode;
use crate::text;

verus! {

/// The operands of a `+` chain: some child other than the operands is a `+`.
pub open spec fn is_plus(node: SyntaxNode) -> bool {
    exists|i: int|
        0 <= i < node.children@.len() && i != node.at_role("left"@) && i != node.at_role("right"@)
            && (#[trigger] node.children@[i]).trimmed_text() == "+"@
}

/// What an expression on the right of an assignment is.
pub open spec fn rhs_of(node: SyntaxNode) -> RhsView {
    if node.kind@ == "slice_expression"@ {
        if node.has_role("operand"@) {
            RhsView::Reslice { of: node.role("operand"@).trimmed_text() }
        } else {
            RhsView::Unknown
        }
    } else if node.kind@ == "nil"@ {
        RhsView::NilLiteral
    } else if node.kind@ == "identifier"@ {
        RhsView::Var(node.trimmed_text())
    } else if node.kind@ == "unary_expression"@ {
        if node.has_role("operand"@) && node.role("operand"@).kind@ == "identifier"@ && text::begins(
            node.trimmed_text(),
            "&"@,
        ) {
            RhsView::AddressOf { of: node.role("operand"@).trimmed_text() }
        } else {
            RhsView::Unknown
        }
    } else if node.kind@ == "binary_expression"@ {
        if node.has_role("left"@) && node.has_role("right"@) && is_plus(node) {
            RhsView::Concat {
                parts: text::ordered_set(
                    syntax::identifiers_in(node.role("left"@)) + syntax::identifiers_in(
                        node.role("right"@),
                    ),
                ),
            }
        } else {
            RhsView::Unknown
        }
    } else {
        RhsView::Unknown
    }
}

/// The operand of an expression, if it is an identifier.
pub open spec fn identifier_operand(node: SyntaxNode) -> Option<Seq<char>> {
    if node.has_role("operand"@) && node.role("operand"@).kind@ == "identifier"@ {
        Some(node.role("operand"@).trimmed_text())
    } else {
        None
    }
}

/// The variable that a call argument names: `x`, `&x` or the `x` of `x[i]`.
pub open spec fn arg_of(node: SyntaxNode) -> Option<Seq<char>> {
    if node.kind@ == "identifier"@ {
        Some(node.trimmed_text())
    } else if node.kind@ == "unary_expression"@ && text::begins(node.trimmed_text(), "&"@) {
        match identifier_operand(node) {
            Some(name) => Some("&"@ + name),
            None => None,
        }
    } else if node.kind@ == "index_expression"@ {
        identifier_operand(node)
    } else {
        None
    }
}

/// The variables that the named nodes among arguments name, in order.
pub open spec fn args_among(nodes: Seq<SyntaxNode>) -> Seq<Seq<char>>
    decreases nodes.len(),
{
    if nodes.len() == 0 {
        Seq::empty()
    } else {
        let earlier = args_among(nodes.drop_last());
        if nodes.last().named {
            match arg_of(nodes.last()) {
                Some(name) => earlier.push(name),
                None => earlier,
            }
        } else {
            earlier
        }
    }
}

/// The variables that a call's arguments name, in order.
pub open spec fn call_args(call: SyntaxNode) -> Seq<Seq<char>> {
    if call.has_role("arguments"@) {
        args_among(call.role("arguments"@).children@)
    } else {
        Seq::empty()
    }
}

/// The name that a call calls: `name`, or `operand.field`.
pub open spec fn call_name(call: SyntaxNode) -> Option<Seq<char>> {
    if !call.has_role("function"@) {
        None
    } else {
        let func = call.role("function"@);
        if func.kind@ == "identifier"@ {
            Some(func.trimmed_text())
        } else if func.kind@ == "selector_expression"@ && func.has_role("operand"@)
            && func.has_role("field"@) {
            Some(
                func.role("operand"@).trimmed_text() + "."@ + func.role("field"@).trimmed_text(),
            )
        } else {
            None
        }
    }
}

/// The composite literal that an expression is, behind an optional `&`.
pub open spec fn composite_of(node: SyntaxNode) -> Option<SyntaxNode> {
    if node.kind@ == "composite_literal"@ {
        Some(node)
    } else if node.kind@ == "unary_expression"@ && node.has_role("operand"@)
        && node.role("operand"@).kind@ == "composite_literal"@ {
        Some(node.role("operand"@))
    } else {
        None
    }
}

/// The type that a composite literal builds: `Type`, or `pkg.Type`.
pub open spec fn composite_type(composite: SyntaxNode) -> Option<Seq<char>> {
    if !composite.has_role("type"@) {
        None
    } else {
        let ty = composite.role("type"@);
        if ty.kind@ == "qualified_type"@ {
            if ty.has_role("package"@) && ty.has_role("name"@) {
                Some(ty.role("package"@).trimmed_text() + "."@ + ty.role("name"@).trimmed_text())
            } else {
                None
            }
        } else if ty.kind@ == "type_identifier"@ {
            Some(ty.trimmed_text())
        } else {
            None
        }
    }
}

/// A field that a composite literal sets to an identifier, as a call of
/// `Type{Field}` with that identifier.
pub open spec fn field_call(built: Seq<char>, element: SyntaxNode) -> Option<StmtView> {
    if element.named && element.kind@ == "keyed_element"@ && element.has_role("key"@)
        && element.has_role("value"@) && element.role("value"@).has_named(0)
        && element.role("value"@).named_child(0).kind@ == "identifier"@ {
        Some(
            shape::call_of(
                built + "{"@ + element.role("key"@).trimmed_text() + "}"@,
                seq![element.role("value"@).named_child(0).trimmed_text()],
                None,
            ),
        )
    } else {
        None
    }
}

/// The fields that the elements set to an identifier, as calls, in order.
pub open spec fn field_calls(built: Seq<char>, elements: Seq<SyntaxNode>) -> Seq<StmtView>
    decreases elements.len(),
{
    if elements.len() == 0 {
        Seq::empty()
    } else {
        let earlier = field_calls(built, elements.drop_last());
        match field_call(built, elements.last()) {
            Some(call) => earlier.push(call),
            None => earlier,
        }
    }
}

/// The fields that a composite literal sets to an identifier, as calls.
pub open spec fn composite_calls(composite: SyntaxNode) -> Seq<StmtView> {
    match composite_type(composite) {
        Some(built) => if composite.has_role("body"@) {
            field_calls(built, composite.role("body"@).children@)
        } else {
            Seq::empty()
        },
        None => Seq::empty(),
    }
}

/// What an assignment of one expression to one identifier lowers to.
pub open spec fn single_assign(lhs: Seq<char>, rhs: SyntaxNode) -> Seq<StmtView> {
    if rhs.kind@ == "call_expression"@ && call_name(rhs) is Some {
        seq![shape::call_of(call_name(rhs)->0, call_args(rhs), Some(lhs))]
    } else if composite_of(rhs) is Some && composite_calls(composite_of(rhs)->0).len() > 0 {
        composite_calls(composite_of(rhs)->0)
    } else {
        seq![StmtView::Assign { lhs, rhs: rhs_of(rhs) }]
    }
}

/// What an assignment or a short variable declaration lowers to. Of
/// `value, err := f()` only the first variable is tracked; every other shape
/// with more than one expression on a side keeps nothing but its source.
pub open spec fn assign_stmts(node: SyntaxNode) -> Seq<StmtView> {
    let fallback = seq![shape::other(node)];
    if !node.has_role("left"@) || !node.has_role("right"@) {
        fallback
    } else {
        let left = node.role("left"@);
        let right = node.role("right"@);
        if syntax::named_count_of(right.children@) != 1 || !right.has_named(0) {
            fallback
        } else {
            let rhs = right.named_child(0);
            if syntax::named_count_of(left.children@) == 2 && rhs.kind@ == "call_expression"@ {
                if left.has_named(0) && left.named_child(0).kind@ == "identifier"@
                    && left.named_child(0).trimmed_text() != "_"@ && call_name(rhs) is Some {
                    seq![
                        shape::call_of(
                            call_name(rhs)->0,
                            call_args(rhs),
                            Some(left.named_child(0).trimmed_text()),
                        ),
                    ]
                } else {
                    fallback
                }
            } else if syntax::named_count_of(left.children@) != 1 || !left.has_named(0)
                || left.named_child(0).kind@ != "identifier"@ {
                fallback
            } else {
                single_assign(left.named_child(0).trimmed_text(), rhs)
            }
        }
    }
}

/// What a `var` declaration lowers to. Only a declaration of one name is
/// modelled. A pointer without an initializer starts out nil; every other variable
/// without one is not modelled.
pub open spec fn var_stmt(node: SyntaxNode) -> StmtView {
    let i = syntax::named_kind_index(node.children@, "var_spec"@) as int;
    if syntax::named_kind_count(node.children@, "var_spec"@) != 1 || i >= node.children@.len() {
        shape::other(node)
    } else {
        let spec = node.children@[i];
        if syntax::named_kind_count(spec.children@, "identifier"@) != 1 || !spec.has_role(
            "name"@,
        ) || !spec.has_role("type"@) {
            shape::other(node)
        } else {
            let lhs = spec.role("name"@).trimmed_text();
            if spec.has_role("value"@) {
                StmtView::Assign { lhs, rhs: rhs_of(spec.role("value"@)) }
            } else if spec.role("type"@).kind@ == "pointer_type"@ {
                StmtView::Assign { lhs, rhs: RhsView::NilLiteral }
            } else {
                shape::other(node)
            }
        }
    }
}

/// The statement list of a block: the position of the child that it is, or the
/// number of children of an empty block.
pub open spec fn list_index(block: SyntaxNode) -> nat {
    syntax::named_kind_index(block.children@, "statement_list"@)
}

/// The variable that a closure's first statement copies to itself, if it does.
pub open spec fn shadowed_first(body: SyntaxNode) -> Option<Seq<char>> {
    let i = list_index(body) as int;
    if i >= body.children@.len() {
        None
    } else {
        let list = body.children@[i];
        if !list.has_named(0) || list.named_child(0).kind@ != "short_var_declaration"@ {
            None
        } else {
            let stmts = assign_stmts(list.named_child(0));
            if stmts.len() != 1 {
                None
            } else {
                match stmts[0] {
                    StmtView::Assign { lhs, rhs: RhsView::Var(from) } => if lhs == from {
                        Some(lhs)
                    } else {
                        None
                    },
                    _ => None,
                }
            }
        }
    }
}

/// The body of the function literal without parameters that a `go` or `defer`
/// statement calls.
pub open spec fn bare_closure_body(stmt: SyntaxNode) -> Option<SyntaxNode> {
    if !stmt.has_named(0) || stmt.named_child(0).kind@ != "call_expression"@ {
        None
    } else {
        let call = stmt.named_child(0);
        if !call.has_role("function"@) || call.role("function"@).kind@ != "func_literal"@ {
            None
        } else {
            let func = call.role("function"@);
            if func.has_role("parameters"@) && syntax::named_count_of(
                func.role("parameters"@).children@,
            ) != 0 {
                None
            } else if func.has_role("body"@) {
                Some(func.role("body"@))
            } else {
                None
            }
        }
    }
}

/// What a `go` or `defer` statement lowers to: what a function literal without
/// parameters captures, but for a variable that it first copies to itself.
/// Any other call passes its arguments by value.
pub open spec fn closure_stmt(stmt: SyntaxNode, kind: ClosureKind) -> StmtView {
    match bare_closure_body(stmt) {
        Some(body) => {
            let all = syntax::identifiers_in(body);
            let free = match shadowed_first(body) {
                Some(var) => text::without(all, var),
                None => all,
            };
            StmtView::ClosureCapture { captured: text::ordered_set(free), kind }
        },
        None => shape::other(stmt),
    }
}

/// The variable that a `return` returns, if it returns one identifier.
pub open spec fn returned_var(stmt: SyntaxNode) -> Option<Seq<char>> {
    if stmt.has_named(0) && stmt.named_child(0).kind@ == "expression_list"@ && syntax::named_count_of(
        stmt.named_child(0).children@,
    ) == 1 && stmt.named_child(0).has_named(0) && stmt.named_child(0).named_child(0).kind@
        == "identifier"@ {
        Some(stmt.named_child(0).named_child(0).trimmed_text())
    } else {
        None
    }
}

/// What an expression that stands as a statement lowers to.
pub open spec fn expression_stmt(stmt: SyntaxNode) -> StmtView {
    if stmt.has_named(0) && stmt.named_child(0).kind@ == "call_expression"@ && call_name(
        stmt.named_child(0),
    ) is Some {
        shape::call_of(call_name(stmt.named_child(0))->0, call_args(stmt.named_child(0)), None)
    } else {
        shape::other(stmt)
    }
}

/// What a condition says of a variable: `var != nil`, `var == nil` or either
/// the other way round.
pub open spec fn nil_guard(cond: SyntaxNode) -> Option<(Seq<char>, GuardOp)> {
    if cond.kind@ == "binary_expression"@ && cond.has_role("left"@) && cond.has_role("right"@) {
        let left = cond.role("left"@);
        let right = cond.role("right"@);
        if left.kind@ == "identifier"@ && right.kind@ == "nil"@ {
            match shape::guard_op(cond.trimmed_text()) {
                Some(op) => Some((left.trimmed_text(), op)),
                None => None,
            }
        } else if left.kind@ == "nil"@ && right.kind@ == "identifier"@ {
            match shape::guard_op(cond.trimmed_text()) {
                Some(op) => Some((right.trimmed_text(), op)),
                None => None,
            }
        } else {
            None
        }
    } else {
        None
    }
}

/// The texts of the identifiers among named nodes that are not `_`, in order.
pub open spec fn vars_among(nodes: Seq<SyntaxNode>) -> Seq<Seq<char>>
    decreases nodes.len(),
{
    if nodes.len() == 0 {
        Seq::empty()
    } else {
        let earlier = vars_among(nodes.drop_last());
        let last = nodes.last();
        if last.named && last.kind@ == "identifier"@ && last.trimmed_text() != "_"@ {
            earlier.push(last.trimmed_text())
        } else {
            earlier
        }
    }
}

/// The variables that a `range` clause declares.
pub open spec fn range_vars(stmt: SyntaxNode) -> Seq<Seq<char>> {
    let i = syntax::named_kind_index(stmt.children@, "range_clause"@) as int;
    if i < stmt.children@.len() && stmt.children@[i].has_role("left"@) {
        vars_among(stmt.children@[i].role("left"@).children@)
    } else {
        Seq::empty()
    }
}

/// The graph with a block lowered into it, and the node that is open behind it.
pub open spec fn block(g: GraphView, node: SyntaxNode, current: NodeId) -> (GraphView, NodeId)
    decreases node, 0nat,
{
    let i = list_index(node) as int;
    if i < node.children@.len() {
        stmts(g, node.children@[i].children@, current)
    } else {
        (g, current)
    }
}

/// The graph with the named nodes lowered into it as statements, in order.
pub open spec fn stmts(g: GraphView, nodes: Seq<SyntaxNode>, current: NodeId) -> (GraphView, NodeId)
    decreases nodes, 0nat,
{
    if nodes.len() == 0 {
        (g, current)
    } else {
        let (g, current) = stmts(g, nodes.drop_last(), current);
        if nodes.last().named {
            stmt(g, nodes.last(), current)
        } else {
            (g, current)
        }
    }
}

/// The graph with a statement lowered into it, and the node that is open
/// behind it.
pub open spec fn stmt(g: GraphView, node: SyntaxNode, current: NodeId) -> (GraphView, NodeId)
    decreases node, 1nat,
{
    if node.kind@ == "short_var_declaration"@ || node.kind@ == "assignment_statement"@ {
        (g.with_stmts(current, assign_stmts(node)), current)
    } else if node.kind@ == "var_declaration"@ {
        (g.with_stmt(current, var_stmt(node)), current)
    } else if node.kind@ == "return_statement"@ {
        shape::returned(g, node, current, returned_var(node))
    } else if node.kind@ == "if_statement"@ {
        conditional(g, node, current)
    } else if node.kind@ == "for_statement"@ {
        for_loop(g, node, current)
    } else if node.kind@ == "go_statement"@ {
        (g.with_stmt(current, closure_stmt(node, ClosureKind::Goroutine)), current)
    } else if node.kind@ == "defer_statement"@ {
        (g.with_stmt(current, closure_stmt(node, ClosureKind::Deferred)), current)
    } else if node.kind@ == "expression_statement"@ {
        (g.with_stmt(current, expression_stmt(node)), current)
    } else {
        (g.with_stmt(current, shape::other(node)), current)
    }
}

/// The graph with a conditional lowered into it. An initializer runs first; each
/// arm starts with what the condition says of a variable there; the alternative,
/// if there is one, is a block or another conditional.
pub open spec fn conditional(g: GraphView, node: SyntaxNode, current: NodeId) -> (GraphView, NodeId)
    decreases node, 0nat,
{
    let (g, current) = if node.has_role("initializer"@) {
        stmt(g, node.role("initializer"@), current)
    } else {
        (g, current)
    };
    let g = if node.has_role("condition"@) {
        g.with_stmt(current, StmtView::Other("if "@ + node.role("condition"@).trimmed_text()))
    } else {
        g
    };
    let guard = if node.has_role("condition"@) {
        nil_guard(node.role("condition"@))
    } else {
        None
    };
    let (g, true_start) = shape::true_arm(g, node, current, guard);
    let (g, true_end) = if node.has_role("consequence"@) {
        block(g, node.role("consequence"@), true_start)
    } else {
        (g, true_start)
    };
    if node.has_role("alternative"@) {
        let (g, false_start) = shape::false_arm(g, node, current, guard);
        let alternative = node.role("alternative"@);
        let (g, false_end) = if alternative.kind@ == "block"@ {
            block(g, alternative, false_start)
        } else {
            stmt(g, alternative, false_start)
        };
        shape::joined(g, node, current, true_end, Some(false_end))
    } else {
        let (g, skipped) = shape::skipped_arm(g, node, current, guard);
        shape::joined(g, node, current, true_end, skipped)
    }
}

/// The graph with a `for` loop lowered into it. The body starts with the
/// variables that a `range` clause declares.
pub open spec fn for_loop(g: GraphView, node: SyntaxNode, current: NodeId) -> (GraphView, NodeId)
    decreases node, 0nat,
{
    let (g, start) = shape::loop_body(g, node, current);
    let vars = range_vars(node);
    let g = if vars.len() > 0 {
        g.with_stmt(start, StmtView::LoopVarBind { vars })
    } else {
        g
    };
    let (g, end) = if node.has_role("body"@) {
        block(g, node.role("body"@), start)
    } else {
        (g, start)
    };
    shape::looped(g, node, current, end)
}

/// The graph of a function.
pub open spec fn function(fn_node: SyntaxNode) -> GraphView {
    let g = shape::opened(fn_node);
    let (g, end) = if fn_node.has_role("body"@) {
        block(g, fn_node.role("body"@), 0)
    } else {
        (g, 0)
    };
    g.with_edge(end, 1, EdgeKind::Fallthrough)
}

fn has_plus(node: &SyntaxNode) -> (r: bool)
    ensures
        r == is_plus(*node),
{
    let mut i: usize = 0;
    let left: usize = role_pos(node, "left");
    let right: usize = role_pos(node, "right");
    while i < node.children.len()
        invariant
            0 <= i <= node.children@.len(),
            left == node.at_role("left"@),
            right == node.at_role("right"@),
            forall|k: int|
                0 <= k < i && k != left && k != right ==> (
                #[trigger] node.children@[k]).trimmed_text() != "+"@,
        decreases node.children.len() - i,
    {
        if i != left && i != right && text::same(node.children[i].trimmed(), "+") {
            return true;
        }
        i += 1;
    }
    false
}

fn role_pos(node: &SyntaxNode, name: &str) -> (pos: usize)
    ensures
        pos == node.at_role(name@),
{
    let mut i: usize = 0;
    proof {
        assert(node.children@.skip(0) =~= node.children@);
    }
    while i < node.children.len()
        invariant
            0 <= i <= node.children@.len(),
            node.at_role(name@) == i + syntax::role_index(node.children@.skip(i as int), name@),
        decreases node.children.len() - i,
    {
        proof {
            assert(node.children@.skip(i as int)[0] == node.children@[i as int]);
            assert(node.children@.skip(i as int).drop_first() =~= node.children@.skip(i + 1));
        }
        if let Some(field) = &node.children[i].field {
            if text::same(field.as_str(), name) {
                return i;
            }
        }
        i += 1;
    }
    i
}

fn classify_binary_expression(node: &SyntaxNode) -> (rhs: RhsShape)
    requires
        node.kind@ == "binary_expression"@,
    ensures
        node.has_role("left"@) && node.has_role("right"@) && is_plus(*node) ==> rhs@
            == (RhsView::Concat {
            parts: text::ordered_set(
                syntax::identifiers_in(node.role("left"@)) + syntax::identifiers_in(
                    node.role("right"@),
                ),
            ),
        }),
        !(node.has_role("left"@) && node.has_role("right"@) && is_plus(*node)) ==> rhs@
            == RhsView::Unknown,
{
    match (node.child_by_role("left"), node.child_by_role("right")) {
        (Some(left), Some(right)) => {
            if !has_plus(node) {
                return RhsShape::Unknown;
            }
            let mut parts: Vec<String> = Vec::new();
            proof {
                assert(text::views(parts@) =~= Seq::<Seq<char>>::empty());
            }
            left.collect_identifiers(&mut parts);
            right.collect_identifiers(&mut parts);
            proof {
                assert(text::views(parts@) =~= syntax::identifiers_in(*left)
                    + syntax::identifiers_in(*right));
            }
            RhsShape::Concat { parts: text::sort_dedup(&parts) }
        },
        _ => RhsShape::Unknown,
    }
}

fn classify_rhs(node: &SyntaxNode) -> (rhs: RhsShape)
    ensures
        rhs@ == rhs_of(*node),
{
    if node.is_kind("slice_expression") {
        match node.child_by_role("operand") {
            Some(operand) => RhsShape::Reslice { of: operand.trimmed().to_owned() },
            None => RhsShape::Unknown,
        }
    } else if node.is_kind("nil") {
        RhsShape::NilLiteral
    } else if node.is_kind("identifier") {
        RhsShape::Var(node.trimmed().to_owned())
    } else if node.is_kind("unary_expression") {
        match node.child_by_role("operand") {
            Some(operand) => {
                if operand.is_kind("identifier") && text::starts_with(node.trimmed(), "&") {
                    RhsShape::AddressOf { of: operand.trimmed().to_owned() }
                } else {
                    RhsShape::Unknown
                }
            },
            None => RhsShape::Unknown,
        }
    } else if node.is_kind("binary_expression") {
        classify_binary_expression(node)
    } else {
        RhsShape::Unknown
    }
}

fn find_identifier_operand(node: &SyntaxNode) -> (name: Option<&str>)
    ensures
        match name {
            Some(n) => identifier_operand(*node) == Some(n@),
            None => identifier_operand(*node) is None,
        },
{
    match node.child_by_role("operand") {
        Some(operand) => {
            if operand.is_kind("identifier") {
                Some(operand.trimmed())
            } else {
                None
            }
        },
        None => None,
    }
}

fn call_arg(node: &SyntaxNode) -> (name: Option<String>)
    ensures
        text::optional(name) == arg_of(*node),
{
    if node.is_kind("identifier") {
        Some(node.trimmed().to_owned())
    } else if node.is_kind("unary_expression") && text::starts_with(node.trimmed(), "&") {
        match find_identifier_operand(node) {
            Some(name) => Some(text::concat2("&", name)),
            None => None,
        }
    } else if node.is_kind("index_expression") {
        match find_identifier_operand(node) {
            Some(name) => Some(name.to_owned()),
            None => None,
        }
    } else {
        None
    }
}

fn call_arg_identifiers(call: &SyntaxNode) -> (args: Vec<String>)
    ensures
        text::views(args@) == call_args(*call),
{
    let mut args: Vec<String> = Vec::new();
    proof {
        assert(text::views(args@) =~= Seq::<Seq<char>>::empty());
    }
    if let Some(list) = call.child_by_role("arguments") {
        let mut i: usize = 0;
        proof {
            assert(list.children@.take(0) =~= Seq::empty());
        }
        while i < list.children.len()
            invariant
                0 <= i <= list.children@.len(),
                text::views(args@) == args_among(list.children@.take(i as int)),
            decreases list.children.len() - i,
        {
            proof {
                assert(list.children@.take(i + 1).drop_last() =~= list.children@.take(i as int));
                assert(list.children@.take(i + 1).last() == list.children@[i as int]);
            }
            if list.children[i].named {
                if let Some(name) = call_arg(&list.children[i]) {
                    proof {
                        text::lemma_views_push(args@, name);
                    }
                    args.push(name);
                }
            }
            i += 1;
        }
        proof {
            assert(list.children@.take(list.children@.len() as int) =~= list.children@);
        }
    }
    args
}

fn call_target_name(call: &SyntaxNode) -> (name: Option<String>)
    ensures
        text::optional(name) == call_name(*call),
{
    match call.child_by_role("function") {
        Some(func) => {
            if func.is_kind("identifier") {
                Some(func.trimmed().to_owned())
            } else if func.is_kind("selector_expression") {
                match (func.child_by_role("operand"), func.child_by_role("field")) {
                    (Some(operand), Some(field)) => Some(
                        text::concat3(operand.trimmed(), ".", field.trimmed()),
                    ),
                    _ => None,
                }
            } else {
                None
            }
        },
        None => None,
    }
}

fn composite_literal_operand(node: &SyntaxNode) -> (composite: Option<&SyntaxNode>)
    ensures
        match composite {
            Some(c) => composite_of(*node) == Some(*c),
            None => composite_of(*node) is None,
        },
{
    if node.is_kind("composite_literal") {
        Some(node)
    } else if node.is_kind("unary_expression") {
        match node.child_by_role("operand") {
            Some(operand) => {
                if operand.is_kind("composite_literal") {
                    Some(operand)
                } else {
                    None
                }
            },
            None => None,
        }
    } else {
        None
    }
}

fn composite_type_name(composite: &SyntaxNode) -> (name: Option<String>)
    ensures
        text::optional(name) == composite_type(*composite),
{
    match composite.child_by_role("type") {
        Some(ty) => {
            if ty.is_kind("qualified_type") {
                match (ty.child_by_role("package"), ty.child_by_role("name")) {
                    (Some(package), Some(name)) => Some(
                        text::concat3(package.trimmed(), ".", name.trimmed()),
                    ),
                    _ => None,
                }
            } else if ty.is_kind("type_identifier") {
                Some(ty.trimmed().to_owned())
            } else {
                None
            }
        },
        None => None,
    }
}

fn lower_keyed_element(built: &str, element: &SyntaxNode) -> (call: Option<Stmt>)
    ensures
        match call {
            Some(c) => field_call(built@, *element) == Some(c@),
            None => field_call(built@, *element) is None,
        },
{
    if !element.named || !element.is_kind("keyed_element") {
        return None;
    }
    match (element.child_by_role("key"), element.child_by_role("value")) {
        (Some(key), Some(value)) => match value.named_child_at(0) {
            Some(ident) => {
                if ident.is_kind("identifier") {
                    let name: String = text::concat3(built, "{", key.trimmed()).concat("}");
                    let args: Vec<String> = vec![ident.trimmed().to_owned()];
                    proof {
                        assert(text::views(args@) =~= seq![ident.trimmed_text()]);
                    }
                    Some(shape::call_stmt(name, args, None))
                } else {
                    None
                }
            },
            None => None,
        },
        _ => None,
    }
}

fn lower_composite_literal_fields(composite: &SyntaxNode) -> (calls: Vec<Stmt>)
    ensures
        text::views(calls@) == composite_calls(*composite),
{
    let mut calls: Vec<Stmt> = Vec::new();
    proof {
        assert(text::views(calls@) =~= Seq::<StmtView>::empty());
    }
    if let Some(built) = composite_type_name(composite) {
        if let Some(body) = composite.child_by_role("body") {
            let mut i: usize = 0;
            proof {
                assert(body.children@.take(0) =~= Seq::empty());
            }
            while i < body.children.len()
                invariant
                    0 <= i <= body.children@.len(),
                    text::views(calls@) == field_calls(
                        built@,
                        body.children@.take(i as int),
                    ),
                decreases body.children.len() - i,
            {
                proof {
                    assert(body.children@.take(i + 1).drop_last() =~= body.children@.take(i as int));
                    assert(body.children@.take(i + 1).last() == body.children@[i as int]);
                }
                if let Some(call) = lower_keyed_element(built.as_str(), &body.children[i]) {
                    proof {
                        text::lemma_views_push(calls@, call);
                    }
                    calls.push(call);
                }
                i += 1;
            }
            proof {
                assert(body.children@.take(body.children@.len() as int) =~= body.children@);
            }
        }
    }
    calls
}

fn one_stmt(stmt: Stmt) -> (stmts: Vec<Stmt>)
    ensures
        text::views(stmts@) == seq![stmt@],
{
    let stmts: Vec<Stmt> = vec![stmt];
    proof {
        assert(text::views(stmts@) =~= seq![stmt@]);
    }
    stmts
}

fn lower_single_assign(lhs: String, rhs: &SyntaxNode) -> (stmts: Vec<Stmt>)
    ensures
        text::views(stmts@) == single_assign(lhs@, *rhs),
{
    if rhs.is_kind("call_expression") {
        if let Some(name) = call_target_name(rhs) {
            return one_stmt(shape::call_stmt(name, call_arg_identifiers(rhs), Some(lhs)));
        }
    }
    if let Some(composite) = composite_literal_operand(rhs) {
        let synthetic: Vec<Stmt> = lower_composite_literal_fields(composite);
        if synthetic.len() > 0 {
            return synthetic;
        }
    }
    one_stmt(Stmt::Assign { lhs, rhs: classify_rhs(rhs) })
}

fn lower_assign_like(node: &SyntaxNode) -> (stmts: Vec<Stmt>)
    ensures
        text::views(stmts@) == assign_stmts(*node),
{
    match (node.child_by_role("left"), node.child_by_role("right")) {
        (Some(left), Some(right)) => {
            if right.named_count() != 1 {
                return one_stmt(shape::other_stmt(node));
            }
            let rhs: &SyntaxNode = match right.named_child_at(0) {
                Some(rhs) => rhs,
                None => {
                    return one_stmt(shape::other_stmt(node));
                },
            };
            let targets: usize = left.named_count();
            if targets == 2 && rhs.is_kind("call_expression") {
                if let Some(primary) = left.named_child_at(0) {
                    if primary.is_kind("identifier") && !text::same(primary.trimmed(), "_") {
                        if let Some(name) = call_target_name(rhs) {
                            return one_stmt(
                                shape::call_stmt(
                                    name,
                                    call_arg_identifiers(rhs),
                                    Some(primary.trimmed().to_owned()),
                                ),
                            );
                        }
                    }
                }
                return one_stmt(shape::other_stmt(node));
            }
            if targets != 1 {
                return one_stmt(shape::other_stmt(node));
            }
            match left.named_child_at(0) {
                Some(lhs) => {
                    if lhs.is_kind("identifier") {
                        lower_single_assign(lhs.trimmed().to_owned(), rhs)
                    } else {
                        one_stmt(shape::other_stmt(node))
                    }
                },
                None => one_stmt(shape::other_stmt(node)),
            }
        },
        _ => one_stmt(shape::other_stmt(node)),
    }
}

fn lower_var_declaration(node: &SyntaxNode) -> (stmt: Stmt)
    ensures
        stmt@ == var_stmt(*node),
{
    if node.count_named_of_kind("var_spec") != 1 {
        return shape::other_stmt(node);
    }
    let spec: &SyntaxNode = match node.named_child_of_kind("var_spec") {
        Some(spec) => spec,
        None => {
            return shape::other_stmt(node);
        },
    };
    if spec.count_named_of_kind("identifier") != 1 {
        return shape::other_stmt(node);
    }
    match (spec.child_by_role("name"), spec.child_by_role("type")) {
        (Some(name), Some(ty)) => {
            let lhs: String = name.trimmed().to_owned();
            match spec.child_by_role("value") {
                Some(value) => Stmt::Assign { lhs, rhs: classify_rhs(value) },
                None => {
                    if ty.is_kind("pointer_type") {
                        Stmt::Assign { lhs, rhs: RhsShape::NilLiteral }
                    } else {
                        shape::other_stmt(node)
                    }
                },
            }
        },
        _ => shape::other_stmt(node),
    }
}

/// Whether a function's result is, or ends in, an `error`.
pub fn function_returns_error(fn_node: &SyntaxNode) -> (r: bool)
    ensures
        r == returns_error(*fn_node),
{
    match fn_node.child_by_role("result") {
        Some(result) => {
            if result.is_kind("type_identifier") {
                text::same(result.trimmed(), "error")
            } else if result.is_kind("parameter_list") {
                match result.last_named_child_of_kind("parameter_declaration") {
                    Some(last) => match last.child_by_role("type") {
                        Some(ty) => ty.is_kind("type_identifier") && text::same(
                            ty.trimmed(),
                            "error",
                        ),
                        None => false,
                    },
                    None => false,
                }
            } else {
                false
            }
        },
        None => false,
    }
}

/// The function's result is, or ends in, an `error`.
pub open spec fn returns_error(fn_node: SyntaxNode) -> bool {
    if !fn_node.has_role("result"@) {
        false
    } else {
        let result = fn_node.role("result"@);
        if result.kind@ == "type_identifier"@ {
            result.trimmed_text() == "error"@
        } else if result.kind@ == "parameter_list"@ {
            match syntax::last_named_of_kind(result.children@, "parameter_declaration"@) {
                Some(last) => last.has_role("type"@) && last.role("type"@).kind@
                    == "type_identifier"@ && last.role("type"@).trimmed_text() == "error"@,
                None => false,
            }
        } else {
            false
        }
    }
}

/// Whether a function's result is a single pointer.
pub fn function_returns_pointer(fn_node: &SyntaxNode) -> (r: bool)
    ensures
        r == (fn_node.has_role("result"@) && fn_node.role("result"@).kind@ == "pointer_type"@),
{
    match fn_node.child_by_role("result") {
        Some(result) => result.is_kind("pointer_type"),
        None => false,
    }
}

/// The function's own name.
pub fn function_name(fn_node: &SyntaxNode) -> (name: Option<String>)
    ensures
        text::optional(name) == shape::own_name(*fn_node),
{
    shape::find_own_name(fn_node)
}

fn find_shadowed_first(body: &SyntaxNode) -> (var: Option<String>)
    ensures
        text::optional(var) == shadowed_first(*body),
{
    match body.named_child_of_kind("statement_list") {
        Some(list) => match list.named_child_at(0) {
            Some(first) => {
                if !first.is_kind("short_var_declaration") {
                    return None;
                }
                let stmts: Vec<Stmt> = lower_assign_like(first);
                proof {
                    assert(text::views(stmts@).len() == stmts@.len());
                }
                if stmts.len() != 1 {
                    return None;
                }
                proof {
                    assert(text::views(stmts@)[0] == stmts@[0]@);
                }
                if let Stmt::Assign { lhs, rhs: RhsShape::Var(from) } = &stmts[0] {
                    if text::same(lhs.as_str(), from.as_str()) {
                        return Some(lhs.clone());
                    }
                }
                None
            },
            None => None,
        },
        None => None,
    }
}

fn find_bare_closure_body(stmt: &SyntaxNode) -> (body: Option<&SyntaxNode>)
    ensures
        match body {
            Some(b) => bare_closure_body(*stmt) == Some(*b),
            None => bare_closure_body(*stmt) is None,
        },
{
    let call: &SyntaxNode = match stmt.named_child_at(0) {
        Some(call) => call,
        None => {
            return None;
        },
    };
    if !call.is_kind("call_expression") {
        return None;
    }
    let func: &SyntaxNode = match call.child_by_role("function") {
        Some(func) => func,
        None => {
            return None;
        },
    };
    if !func.is_kind("func_literal") {
        return None;
    }
    if let Some(parameters) = func.child_by_role("parameters") {
        if parameters.named_count() != 0 {
            return None;
        }
    }
    func.child_by_role("body")
}

fn lower_closure_capture(stmt: &SyntaxNode, kind: ClosureKind) -> (lowered: Stmt)
    ensures
        lowered@ == closure_stmt(*stmt, kind),
{
    match find_bare_closure_body(stmt) {
        Some(body) => {
            let mut captured: Vec<String> = Vec::new();
            proof {
                assert(text::views(captured@) =~= Seq::<Seq<char>>::empty());
            }
            body.collect_identifiers(&mut captured);
            proof {
                assert(text::views(captured@) =~= syntax::identifiers_in(*body));
            }
            if let Some(var) = find_shadowed_first(body) {
                captured = text::drop_text(&captured, var.as_str());
            }
            Stmt::ClosureCapture { captured: text::sort_dedup(&captured), kind }
        },
        None => shape::other_stmt(stmt),
    }
}

fn return_value(stmt: &SyntaxNode) -> (value: Option<String>)
    ensures
        text::optional(value) == returned_var(*stmt),
{
    match stmt.named_child_at(0) {
        Some(list) => {
            if list.is_kind("expression_list") && list.named_count() == 1 {
                match list.named_child_at(0) {
                    Some(value) => {
                        if value.is_kind("identifier") {
                            Some(value.trimmed().to_owned())
                        } else {
                            None
                        }
                    },
                    None => None,
                }
            } else {
                None
            }
        },
        None => None,
    }
}

fn lower_expression_statement(stmt: &SyntaxNode) -> (lowered: Stmt)
    ensures
        lowered@ == expression_stmt(*stmt),
{
    if let Some(call) = stmt.named_child_at(0) {
        if call.is_kind("call_expression") {
            if let Some(name) = call_target_name(call) {
                return shape::call_stmt(name, call_arg_identifiers(call), None);
            }
        }
    }
    shape::other_stmt(stmt)
}

fn recognize_nil_guard(cond: &SyntaxNode) -> (guard: Option<(String, GuardOp)>)
    ensures
        match guard {
            Some((var, op)) => nil_guard(*cond) == Some((var@, op)),
            None => nil_guard(*cond) is None,
        },
{
    if !cond.is_kind("binary_expression") {
        return None;
    }
    match (cond.child_by_role("left"), cond.child_by_role("right")) {
        (Some(left), Some(right)) => {
            let var: &SyntaxNode = if left.is_kind("identifier") && right.is_kind("nil") {
                left
            } else if left.is_kind("nil") && right.is_kind("identifier") {
                right
            } else {
                return None;
            };
            match shape::find_guard_op(cond.trimmed()) {
                Some(op) => Some((var.trimmed().to_owned(), op)),
                None => None,
            }
        },
        _ => None,
    }
}

fn range_clause_vars(stmt: &SyntaxNode) -> (vars: Vec<String>)
    ensures
        text::views(vars@) == range_vars(*stmt),
{
    let mut vars: Vec<String> = Vec::new();
    proof {
        assert(text::views(vars@) =~= Seq::<Seq<char>>::empty());
    }
    if let Some(clause) = stmt.named_child_of_kind("range_clause") {
        if let Some(left) = clause.child_by_role("left") {
            let mut i: usize = 0;
            proof {
                assert(left.children@.take(0) =~= Seq::empty());
            }
            while i < left.children.len()
                invariant
                    0 <= i <= left.children@.len(),
                    text::views(vars@) == vars_among(left.children@.take(i as int)),
                decreases left.children.len() - i,
            {
                proof {
                    assert(left.children@.take(i + 1).drop_last() =~= left.children@.take(i as int));
                    assert(left.children@.take(i + 1).last() == left.children@[i as int]);
                }
                let child: &SyntaxNode = &left.children[i];
                if child.named && child.is_kind("identifier") && !text::same(child.trimmed(), "_") {
                    let var: String = child.trimmed().to_owned();
                    proof {
                        text::lemma_views_push(vars@, var);
                    }
                    vars.push(var);
                }
                i += 1;
            }
            proof {
                assert(left.children@.take(left.children@.len() as int) =~= left.children@);
            }
        }
    }
    vars
}

/// Lowers a function to its graph. `fn_node` is a `function_declaration` or a
/// `method_declaration`. Node 0 is the entry and node 1 the exit.
pub fn lower_function(fn_node: &SyntaxNode) -> (cfg: Cfg<Stmt>)
    ensures
        cfg@ == function(*fn_node),
        cfg.well_formed(),
{
    let mut cfg: Cfg<Stmt> = shape::open_function(fn_node);
    let end: NodeId = match fn_node.child_by_role("body") {
        Some(body) => lower_block(&mut cfg, body, 0),
        None => 0,
    };
    cfg.add_edge(end, 1, EdgeKind::Fallthrough);
    cfg
}

fn lower_block(cfg: &mut Cfg<Stmt>, node: &SyntaxNode, current: NodeId) -> (end: NodeId)
    requires
        old(cfg).open_at(current),
    ensures
        (final(cfg)@, end) == block(old(cfg)@, *node, current),
        final(cfg).open_at(end),
        final(cfg).nodes@.len() >= old(cfg).nodes@.len(),
    decreases node, 0nat,
{
    match node.named_child_of_kind("statement_list") {
        Some(list) => {
            let ghost start = cfg@;
            let ghost count = cfg.nodes@.len();
            let mut now: NodeId = current;
            let mut i: usize = 0;
            proof {
                assert(list.children@.take(0) =~= Seq::empty());
            }
            while i < list.children.len()
                invariant
                    0 <= i <= list.children@.len(),
                    decreases_to!(*node => *list),
                    (cfg@, now) == stmts(start, list.children@.take(i as int), current),
                    cfg.open_at(now),
                    cfg.nodes@.len() >= count,
                decreases list.children.len() - i,
            {
                proof {
                    assert(list.children@.take(i + 1).drop_last() =~= list.children@.take(i as int));
                    assert(list.children@.take(i + 1).last() == list.children@[i as int]);
                }
                if list.children[i].named {
                    now = lower_statement(cfg, &list.children[i], now);
                }
                i += 1;
            }
            proof {
                assert(list.children@.take(list.children@.len() as int) =~= list.children@);
            }
            now
        },
        None => current,
    }
}

fn lower_statement(cfg: &mut Cfg<Stmt>, node: &SyntaxNode, current: NodeId) -> (end: NodeId)
    requires
        old(cfg).open_at(current),
    ensures
        (final(cfg)@, end) == stmt(old(cfg)@, *node, current),
        final(cfg).open_at(end),
        final(cfg).nodes@.len() >= old(cfg).nodes@.len(),
    decreases node, 1nat,
{
    if node.is_kind("short_var_declaration") || node.is_kind("assignment_statement") {
        cfg.add_stmts(current, lower_assign_like(node));
        current
    } else if node.is_kind("var_declaration") {
        cfg.add_stmt(current, lower_var_declaration(node));
        current
    } else if node.is_kind("return_statement") {
        shape::add_return(cfg, node, current, return_value(node))
    } else if node.is_kind("if_statement") {
        lower_if(cfg, node, current)
    } else if node.is_kind("for_statement") {
        lower_for(cfg, node, current)
    } else if node.is_kind("go_statement") {
        cfg.add_stmt(current, lower_closure_capture(node, ClosureKind::Goroutine));
        current
    } else if node.is_kind("defer_statement") {
        cfg.add_stmt(current, lower_closure_capture(node, ClosureKind::Deferred));
        current
    } else if node.is_kind("expression_statement") {
        cfg.add_stmt(current, lower_expression_statement(node));
        current
    } else {
        cfg.add_stmt(current, shape::other_stmt(node));
        current
    }
}

fn lower_if(cfg: &mut Cfg<Stmt>, node: &SyntaxNode, current: NodeId) -> (end: NodeId)
    requires
        old(cfg).open_at(current),
    ensures
        (final(cfg)@, end) == conditional(old(cfg)@, *node, current),
        final(cfg).open_at(end),
        final(cfg).nodes@.len() >= old(cfg).nodes@.len(),
    decreases node, 0nat,
{
    let current: NodeId = match node.child_by_role("initializer") {
        Some(initializer) => lower_statement(cfg, initializer, current),
        None => current,
    };
    let guard: Option<(String, GuardOp)> = match node.child_by_role("condition") {
        Some(cond) => {
            cfg.add_stmt(current, Stmt::Other(text::concat2("if ", cond.trimmed())));
            recognize_nil_guard(cond)
        },
        None => None,
    };
    let true_start: NodeId = shape::open_true_arm(cfg, node, current, &guard);
    let true_end: NodeId = match node.child_by_role("consequence") {
        Some(consequence) => lower_block(cfg, consequence, true_start),
        None => true_start,
    };
    match node.child_by_role("alternative") {
        Some(alternative) => {
            let false_start: NodeId = shape::open_false_arm(cfg, node, current, &guard);
            let false_end: NodeId = if alternative.is_kind("block") {
                lower_block(cfg, alternative, false_start)
            } else {
                lower_statement(cfg, alternative, false_start)
            };
            shape::join_arms(cfg, node, current, true_end, Some(false_end))
        },
        None => {
            let skipped: Option<NodeId> = shape::open_skipped_arm(cfg, node, current, &guard);
            shape::join_arms(cfg, node, current, true_end, skipped)
        },
    }
}

fn lower_for(cfg: &mut Cfg<Stmt>, node: &SyntaxNode, current: NodeId) -> (end: NodeId)
    requires
        old(cfg).open_at(current),
    ensures
        (final(cfg)@, end) == for_loop(old(cfg)@, *node, current),
        final(cfg).open_at(end),
        final(cfg).nodes@.len() >= old(cfg).nodes@.len(),
    decreases node, 0nat,
{
    let start: NodeId = shape::open_loop_body(cfg, node, current);
    let vars: Vec<String> = range_clause_vars(node);
    proof {
        assert(text::views(vars@).len() == vars@.len());
    }
    if vars.len() > 0 {
        cfg.add_stmt(start, Stmt::LoopVarBind { vars });
    }
    let end: NodeId = match node.child_by_role("body") {
        Some(body) => lower_block(cfg, body, start),
        None => start,
    };
    shape::close_loop(cfg, node, current, end)
}

proof fn lemma_block_grows(g: GraphView, node: SyntaxNode, current: NodeId)
    requires
        current < g.nodes.len(),
    ensures
        cfg::grown(g, block(g, node, current).0),
        block(g, node, current).1 < block(g, node, current).0.nodes.len(),
    decreases node, 0nat,
{
    let i = list_index(node) as int;
    if i < node.children@.len() {
        lemma_stmts_grows(g, node.children@[i].children@, current);
    } else {
        cfg::lemma_steps_grow(g, 0, current, shape::other(node), current, EdgeKind::True);
    }
}

proof fn lemma_stmts_grows(g: GraphView, nodes: Seq<SyntaxNode>, current: NodeId)
    requires
        current < g.nodes.len(),
    ensures
        cfg::grown(g, stmts(g, nodes, current).0),
        stmts(g, nodes, current).1 < stmts(g, nodes, current).0.nodes.len(),
    decreases nodes, 0nat,
{
    if nodes.len() == 0 {
        cfg::lemma_steps_grow(g, 0, current, StmtView::Return { value: None }, current, EdgeKind::True);
    } else {
        lemma_stmts_grows(g, nodes.drop_last(), current);
        let (h, now) = stmts(g, nodes.drop_last(), current);
        if nodes.last().named {
            lemma_stmt_grows(h, nodes.last(), now);
            cfg::lemma_grown_twice(g, h, stmt(h, nodes.last(), now).0);
        }
    }
}

proof fn lemma_stmt_grows(g: GraphView, node: SyntaxNode, current: NodeId)
    requires
        current < g.nodes.len(),
    ensures
        cfg::grown(g, stmt(g, node, current).0),
        stmt(g, node, current).1 < stmt(g, node, current).0.nodes.len(),
    decreases node, 1nat,
{
    if node.kind@ == "short_var_declaration"@ || node.kind@ == "assignment_statement"@ {
        cfg::lemma_stmts_grow(g, current, assign_stmts(node));
    } else if node.kind@ == "return_statement"@ {
        shape::a_return_leads_to_the_exit(g, node, current, returned_var(node));
    } else if node.kind@ == "if_statement"@ {
        lemma_conditional_grows(g, node, current);
    } else if node.kind@ == "for_statement"@ {
        lemma_for_grows(g, node, current);
    } else {
        cfg::lemma_steps_grow(g, 0, current, var_stmt(node), current, EdgeKind::True);
        cfg::lemma_steps_grow(g, 0, current, closure_stmt(node, ClosureKind::Goroutine), current, EdgeKind::True);
        cfg::lemma_steps_grow(g, 0, current, closure_stmt(node, ClosureKind::Deferred), current, EdgeKind::True);
        cfg::lemma_steps_grow(g, 0, current, expression_stmt(node), current, EdgeKind::True);
        cfg::lemma_steps_grow(g, 0, current, shape::other(node), current, EdgeKind::True);
    }
}

/// A statement is lowered into the node `at`, and the outcome is part of `h`.
pub open spec fn placed_at(node: SyntaxNode, at: NodeId, h: GraphView) -> bool {
    exists|g: GraphView| at < g.nodes.len() && cfg::grown(#[trigger] stmt(g, node, at).0, h)
}

/// A statement is lowered into some node, and the outcome is part of `h`.
pub open spec fn placed(node: SyntaxNode, h: GraphView) -> bool {
    exists|at: NodeId| #[trigger] placed_at(node, at, h)
}

/// `list` is the statement list of a block.
pub open spec fn is_list_of(list: SyntaxNode, node: SyntaxNode) -> bool {
    exists|l: int|
        0 <= l < node.children@.len() && #[trigger] node.children@[l] == list && list.named
            && list.kind@ == "statement_list"@ && forall|j: int|
            0 <= j < l ==> !((#[trigger] node.children@[j]).named && node.children@[j].kind@
                == "statement_list"@)
}

/// Every statement of a block is part of `h`, the first of them in the node `at`.
pub open spec fn block_placed(node: SyntaxNode, at: NodeId, h: GraphView) -> bool {
    forall|list: SyntaxNode, i: int|
        #![trigger is_list_of(list, node), list.children@[i]]
        is_list_of(list, node) && 0 <= i < list.children@.len() && list.children@[i].named
            ==> placed(list.children@[i], h) && ((forall|j: int|
            0 <= j < i ==> !(#[trigger] list.children@[j]).named) ==> placed_at(
            list.children@[i],
            at,
            h,
        ))
}

proof fn lemma_stmts_placed(g: GraphView, nodes: Seq<SyntaxNode>, current: NodeId, h: GraphView, i: int)
    requires
        current < g.nodes.len(),
        cfg::grown(stmts(g, nodes, current).0, h),
        0 <= i < nodes.len(),
        nodes[i].named,
    ensures
        placed(nodes[i], h),
        (forall|j: int| 0 <= j < i ==> !(#[trigger] nodes[j]).named) ==> placed_at(
            nodes[i],
            current,
            h,
        ),
    decreases nodes.len(),
{
    let rest = nodes.drop_last();
    let (mid, now) = stmts(g, rest, current);
    lemma_stmts_grows(g, rest, current);
    if i == nodes.len() - 1 {
        assert(placed_at(nodes[i], now, h)) by {
            assert(cfg::grown(stmt(mid, nodes[i], now).0, h));
        }
        if forall|j: int| 0 <= j < i ==> !(#[trigger] nodes[j]).named {
            lemma_unnamed(g, rest, current);
        }
    } else {
        if nodes.last().named {
            lemma_stmt_grows(mid, nodes.last(), now);
            cfg::lemma_grown_twice(mid, stmt(mid, nodes.last(), now).0, h);
        }
        assert(rest[i] == nodes[i]);
        lemma_stmts_placed(g, rest, current, h, i);
        if forall|j: int| 0 <= j < i ==> !(#[trigger] nodes[j]).named {
            assert forall|j: int| 0 <= j < i implies !(#[trigger] rest[j]).named by {
                assert(rest[j] == nodes[j]);
            }
        }
    }
}

proof fn lemma_unnamed(g: GraphView, nodes: Seq<SyntaxNode>, current: NodeId)
    requires
        forall|j: int| 0 <= j < nodes.len() ==> !(#[trigger] nodes[j]).named,
    ensures
        stmts(g, nodes, current) == (g, current),
    decreases nodes.len(),
{
    if nodes.len() > 0 {
        assert(!nodes[nodes.len() - 1].named);
        assert forall|j: int| 0 <= j < nodes.drop_last().len() implies !(
        #[trigger] nodes.drop_last()[j]).named by {
            assert(nodes.drop_last()[j] == nodes[j]);
        }
        lemma_unnamed(g, nodes.drop_last(), current);
    }
}

proof fn lemma_block_placed(g: GraphView, node: SyntaxNode, current: NodeId, h: GraphView)
    requires
        current < g.nodes.len(),
        cfg::grown(block(g, node, current).0, h),
    ensures
        block_placed(node, current, h),
{
    assert forall|list: SyntaxNode, i: int|
        #![trigger is_list_of(list, node), list.children@[i]]
        is_list_of(list, node) && 0 <= i < list.children@.len()
            && list.children@[i].named implies placed(list.children@[i], h) && ((forall|j: int|
        0 <= j < i ==> !(#[trigger] list.children@[j]).named) ==> placed_at(
        list.children@[i],
        current,
        h,
    )) by {
        syntax::the_first_of_a_kind_is_found(node.children@, "statement_list"@);
        let l = choose|l: int|
            0 <= l < node.children@.len() && #[trigger] node.children@[l] == list && list.named
                && list.kind@ == "statement_list"@ && forall|j: int|
                0 <= j < l ==> !((#[trigger] node.children@[j]).named && node.children@[j].kind@
                    == "statement_list"@);
        let k = list_index(node) as int;
        if k < l {
            assert(!(node.children@[k].named && node.children@[k].kind@ == "statement_list"@));
        }
        assert(k == l);
        lemma_stmts_placed(g, list.children@, current, h, i);
    }
}

/// Where the arms of a conditional stand: behind a true and a false edge from one
/// node, and both are part of `h`. The alternative is a block or a statement.
pub open spec fn arms_placed(node: SyntaxNode, at: NodeId, yes: NodeId, no: NodeId, h: GraphView) -> bool {
    &&& cfg::joins_nodes(h, at, yes, EdgeKind::True)
    &&& node.has_role("consequence"@) ==> block_placed(node.role("consequence"@), yes, h)
    &&& node.has_role("alternative"@) ==> {
        let alternative = node.role("alternative"@);
        &&& cfg::joins_nodes(h, at, no, EdgeKind::False)
        &&& alternative.kind@ == "block"@ ==> block_placed(alternative, no, h)
        &&& alternative.kind@ != "block"@ ==> placed_at(alternative, no, h)
    }
}

proof fn lemma_conditional_grows(g: GraphView, node: SyntaxNode, current: NodeId)
    requires
        current < g.nodes.len(),
    ensures
        cfg::grown(g, conditional(g, node, current).0),
        conditional(g, node, current).1 < conditional(g, node, current).0.nodes.len(),
    decreases node, 0nat,
{
    let h = conditional(g, node, current).0;
    let (g1, at) = if node.has_role("initializer"@) {
        stmt(g, node.role("initializer"@), current)
    } else {
        (g, current)
    };
    if node.has_role("initializer"@) {
        lemma_stmt_grows(g, node.role("initializer"@), current);
    } else {
        cfg::lemma_steps_grow(g, 0, current, shape::other(node), current, EdgeKind::True);
    }
    let asked = StmtView::Other("if "@ + node.role("condition"@).trimmed_text());
    let g2 = if node.has_role("condition"@) {
        g1.with_stmt(at, asked)
    } else {
        g1
    };
    cfg::lemma_steps_grow(g1, 0, at, asked, at, EdgeKind::True);
    let guard = if node.has_role("condition"@) {
        nil_guard(node.role("condition"@))
    } else {
        None
    };
    shape::arms_begin_behind_their_edges(g2, node, at, guard);
    let (g3, yes) = shape::true_arm(g2, node, at, guard);
    let (g4, true_end) = if node.has_role("consequence"@) {
        block(g3, node.role("consequence"@), yes)
    } else {
        (g3, yes)
    };
    if node.has_role("consequence"@) {
        lemma_block_grows(g3, node.role("consequence"@), yes);
    } else {
        cfg::lemma_steps_grow(g3, 0, yes, asked, yes, EdgeKind::True);
    }
    cfg::lemma_grown_twice(g, g1, g2);
    cfg::lemma_grown_twice(g, g2, g3);
    cfg::lemma_grown_twice(g, g3, g4);
    shape::arms_begin_behind_their_edges(g4, node, at, guard);
    let alternative = node.role("alternative"@);
    let (g5, no) = shape::false_arm(g4, node, at, guard);
    if node.has_role("alternative"@) {
        let (g6, false_end) = if alternative.kind@ == "block"@ {
            block(g5, alternative, no)
        } else {
            stmt(g5, alternative, no)
        };
        if alternative.kind@ == "block"@ {
            lemma_block_grows(g5, alternative, no);
        } else {
            lemma_stmt_grows(g5, alternative, no);
        }
        shape::arms_meet(g6, node, at, true_end, Some(false_end));
        cfg::lemma_grown_twice(g4, g5, g6);
        cfg::lemma_grown_twice(g4, g6, h);
        cfg::lemma_grown_twice(g5, g6, h);
    } else {
        let (g6, skipped) = shape::skipped_arm(g4, node, at, guard);
        shape::arms_meet(g6, node, at, true_end, skipped);
        cfg::lemma_grown_twice(g4, g6, h);
    }
    cfg::lemma_grown_twice(g, g4, h);
    cfg::lemma_grown_twice(g3, g4, h);
    cfg::lemma_grown_twice(g2, g3, h);
    cfg::lemma_grown_twice(g1, g2, h);
}

proof fn lemma_conditional_places(g: GraphView, node: SyntaxNode, current: NodeId)
    requires
        current < g.nodes.len(),
    ensures
        cfg::grown(g, conditional(g, node, current).0),
        conditional(g, node, current).1 < conditional(g, node, current).0.nodes.len(),
        exists|at: NodeId, yes: NodeId, no: NodeId| #[trigger]
            arms_placed(node, at, yes, no, conditional(g, node, current).0) && (node.has_role(
                "condition"@,
            ) ==> cfg::holds_at(
                conditional(g, node, current).0,
                at as int,
                StmtView::Other("if "@ + text::trimmed(node.role("condition"@).text@)),
            )) && (!node.has_role("initializer"@) ==> at == current) && (node.has_role(
                "initializer"@,
            ) ==> placed_at(node.role("initializer"@), current, conditional(g, node, current).0)),
{
    let h = conditional(g, node, current).0;
    let (g1, at) = if node.has_role("initializer"@) {
        stmt(g, node.role("initializer"@), current)
    } else {
        (g, current)
    };
    if node.has_role("initializer"@) {
        lemma_stmt_grows(g, node.role("initializer"@), current);
    } else {
        cfg::lemma_steps_grow(g, 0, current, shape::other(node), current, EdgeKind::True);
    }
    let asked = StmtView::Other("if "@ + node.role("condition"@).trimmed_text());
    let g2 = if node.has_role("condition"@) {
        g1.with_stmt(at, asked)
    } else {
        g1
    };
    cfg::lemma_steps_grow(g1, 0, at, asked, at, EdgeKind::True);
    let guard = if node.has_role("condition"@) {
        nil_guard(node.role("condition"@))
    } else {
        None
    };
    shape::arms_begin_behind_their_edges(g2, node, at, guard);
    let (g3, yes) = shape::true_arm(g2, node, at, guard);
    let (g4, true_end) = if node.has_role("consequence"@) {
        block(g3, node.role("consequence"@), yes)
    } else {
        (g3, yes)
    };
    if node.has_role("consequence"@) {
        lemma_block_grows(g3, node.role("consequence"@), yes);
    } else {
        cfg::lemma_steps_grow(g3, 0, yes, asked, yes, EdgeKind::True);
    }
    cfg::lemma_grown_twice(g, g1, g2);
    cfg::lemma_grown_twice(g, g2, g3);
    cfg::lemma_grown_twice(g, g3, g4);
    shape::arms_begin_behind_their_edges(g4, node, at, guard);
    let alternative = node.role("alternative"@);
    let (g5, no) = shape::false_arm(g4, node, at, guard);
    if node.has_role("alternative"@) {
        let (g6, false_end) = if alternative.kind@ == "block"@ {
            block(g5, alternative, no)
        } else {
            stmt(g5, alternative, no)
        };
        if alternative.kind@ == "block"@ {
            lemma_block_grows(g5, alternative, no);
        } else {
            lemma_stmt_grows(g5, alternative, no);
        }
        shape::arms_meet(g6, node, at, true_end, Some(false_end));
        cfg::lemma_grown_twice(g4, g5, g6);
        cfg::lemma_grown_twice(g4, g6, h);
        cfg::lemma_grown_twice(g5, g6, h);
        cfg::lemma_grown_keeps(g5, h, 0, asked, (at, no, EdgeKind::False));
        if alternative.kind@ == "block"@ {
            lemma_block_placed(g5, alternative, no, h);
        } else {
            assert(placed_at(alternative, no, h));
        }
    } else {
        let (g6, skipped) = shape::skipped_arm(g4, node, at, guard);
        shape::arms_meet(g6, node, at, true_end, skipped);
        cfg::lemma_grown_twice(g4, g6, h);
    }
    cfg::lemma_grown_twice(g, g4, h);
    cfg::lemma_grown_twice(g3, g4, h);
    cfg::lemma_grown_twice(g2, g3, h);
    cfg::lemma_grown_twice(g1, g2, h);
    cfg::lemma_grown_keeps(g3, h, 0, asked, (at, yes, EdgeKind::True));
    cfg::lemma_grown_keeps(g2, h, at as int, asked, (at, yes, EdgeKind::True));
    if node.has_role("consequence"@) {
        lemma_block_placed(g3, node.role("consequence"@), yes, h);
    }
    if node.has_role("initializer"@) {
        assert(placed_at(node.role("initializer"@), current, h));
    }
    assert(arms_placed(node, at, yes, no, h));
}

/// Where the body of a loop stands: behind a true edge from the header, which its
/// end leads back to and a false edge leads on from, and it is part of `h`.
pub open spec fn body_placed(node: SyntaxNode, header: NodeId, start: NodeId, end: NodeId, after: NodeId, h: GraphView) -> bool {
    &&& cfg::joins_nodes(h, header, start, EdgeKind::True)
    &&& cfg::joins_nodes(h, end, header, EdgeKind::Loop)
    &&& cfg::joins_nodes(h, header, after, EdgeKind::False)
    &&& node.has_role("body"@) ==> block_placed(node.role("body"@), start, h)
    &&& range_vars(node).len() > 0 ==> cfg::holds_at(
        h,
        start as int,
        StmtView::LoopVarBind { vars: range_vars(node) },
    )
}

proof fn lemma_for_grows(g: GraphView, node: SyntaxNode, current: NodeId)
    requires
        current < g.nodes.len(),
    ensures
        cfg::grown(g, for_loop(g, node, current).0),
        for_loop(g, node, current).1 < for_loop(g, node, current).0.nodes.len(),
    decreases node, 0nat,
{
    let (h, after) = for_loop(g, node, current);
    shape::loops_lead_back(g, node, current, current);
    let (g1, start) = shape::loop_body(g, node, current);
    let vars = range_vars(node);
    let bind = StmtView::LoopVarBind { vars };
    cfg::lemma_steps_grow(g1, 0, start, bind, start, EdgeKind::True);
    let g2 = if vars.len() > 0 {
        g1.with_stmt(start, bind)
    } else {
        g1
    };
    let (g3, end) = if node.has_role("body"@) {
        block(g2, node.role("body"@), start)
    } else {
        (g2, start)
    };
    if node.has_role("body"@) {
        lemma_block_grows(g2, node.role("body"@), start);
    } else {
        cfg::lemma_steps_grow(g2, 0, start, bind, start, EdgeKind::True);
    }
    cfg::lemma_grown_twice(g, g1, g2);
    cfg::lemma_grown_twice(g, g2, g3);
    shape::loops_lead_back(g3, node, current, end);
    cfg::lemma_grown_twice(g, g3, h);
    cfg::lemma_grown_twice(g2, g3, h);
    cfg::lemma_grown_twice(g1, g2, h);
}

proof fn lemma_for_places(g: GraphView, node: SyntaxNode, current: NodeId)
    requires
        current < g.nodes.len(),
    ensures
        cfg::grown(g, for_loop(g, node, current).0),
        for_loop(g, node, current).1 < for_loop(g, node, current).0.nodes.len(),
        exists|start: NodeId, end: NodeId| #[trigger]
            body_placed(
                node,
                current,
                start,
                end,
                for_loop(g, node, current).1,
                for_loop(g, node, current).0,
            ),
{
    let (h, after) = for_loop(g, node, current);
    shape::loops_lead_back(g, node, current, current);
    let (g1, start) = shape::loop_body(g, node, current);
    let vars = range_vars(node);
    let bind = StmtView::LoopVarBind { vars };
    cfg::lemma_steps_grow(g1, 0, start, bind, start, EdgeKind::True);
    let g2 = if vars.len() > 0 {
        g1.with_stmt(start, bind)
    } else {
        g1
    };
    let (g3, end) = if node.has_role("body"@) {
        block(g2, node.role("body"@), start)
    } else {
        (g2, start)
    };
    if node.has_role("body"@) {
        lemma_block_grows(g2, node.role("body"@), start);
    } else {
        cfg::lemma_steps_grow(g2, 0, start, bind, start, EdgeKind::True);
    }
    cfg::lemma_grown_twice(g, g1, g2);
    cfg::lemma_grown_twice(g, g2, g3);
    shape::loops_lead_back(g3, node, current, end);
    cfg::lemma_grown_twice(g, g3, h);
    cfg::lemma_grown_twice(g2, g3, h);
    cfg::lemma_grown_twice(g1, g2, h);
    cfg::lemma_grown_keeps(g1, h, 0, bind, (current, start, EdgeKind::True));
    cfg::lemma_grown_keeps(g2, h, start as int, bind, (current, start, EdgeKind::True));
    if node.has_role("body"@) {
        lemma_block_placed(g2, node.role("body"@), start, h);
    }
    assert(body_placed(node, current, start, end, after, h));
}

/// What a statement that is lowered into the node `at` leaves there. A conditional
/// has both its arms in the graph, behind a true and a false edge; a loop has its
/// body in the graph; a return leads to the exit; a call is a call; whatever is
/// not modelled keeps its source.
pub proof fn a_statement_leaves_its_trace(node: SyntaxNode, at: NodeId, h: GraphView)
    requires
        placed_at(node, at, h),
    ensures
        node.kind@ == "if_statement"@ ==> exists|asked: NodeId, yes: NodeId, no: NodeId| #[trigger]
            arms_placed(node, asked, yes, no, h) && (node.has_role("condition"@) ==> cfg::holds_at(
                h,
                asked as int,
                StmtView::Other("if "@ + text::trimmed(node.role("condition"@).text@)),
            )) && (!node.has_role("initializer"@) ==> asked == at) && (node.has_role(
                "initializer"@,
            ) ==> placed_at(node.role("initializer"@), at, h)),
        node.kind@ == "for_statement"@ ==> exists|start: NodeId, end: NodeId, after: NodeId|
            #[trigger] body_placed(node, at, start, end, after, h),
        node.kind@ == "return_statement"@ ==> cfg::holds_at(
            h,
            at as int,
            StmtView::Return { value: returned_var(node) },
        ) && cfg::joins_nodes(h, at, h.exit, EdgeKind::Fallthrough),
        node.kind@ == "expression_statement"@ && node.has_named(0) && node.named_child(0).kind@
            == "call_expression"@ ==> match call_name(node.named_child(0)) {
            Some(name) => cfg::holds_at(
                h,
                at as int,
                StmtView::Call {
                    target: cfg::CallTargetView::Named(name),
                    args: call_args(node.named_child(0)),
                    assigned_to: None,
                },
            ),
            None => cfg::holds_at(h, at as int, StmtView::Other(text::trimmed(node.text@))),
        },
        node.kind@ == "var_declaration"@ ==> cfg::holds_at(h, at as int, var_stmt(node)),
        node.kind@ == "short_var_declaration"@ || node.kind@ == "assignment_statement"@
            ==> forall|k: int|
            0 <= k < assign_stmts(node).len() ==> cfg::holds_at(
                h,
                at as int,
                #[trigger] assign_stmts(node)[k],
            ),
        node.kind@ == "go_statement"@ ==> cfg::holds_at(
            h,
            at as int,
            closure_stmt(node, ClosureKind::Goroutine),
        ),
        node.kind@ == "defer_statement"@ ==> cfg::holds_at(
            h,
            at as int,
            closure_stmt(node, ClosureKind::Deferred),
        ),
        (node.kind@ != "if_statement"@ && node.kind@ != "for_statement"@ && node.kind@
            != "return_statement"@ && node.kind@ != "expression_statement"@ && node.kind@
            != "var_declaration"@ && node.kind@ != "short_var_declaration"@ && node.kind@
            != "assignment_statement"@ && node.kind@ != "go_statement"@ && node.kind@
            != "defer_statement"@) || (node.kind@ == "expression_statement"@ && (!node.has_named(0)
            || node.named_child(0).kind@ != "call_expression"@)) ==> cfg::holds_at(
            h,
            at as int,
            StmtView::Other(text::trimmed(node.text@)),
        ),
{
    let g = choose|g: GraphView| at < g.nodes.len() && cfg::grown(#[trigger] stmt(g, node, at).0, h);
    let m = stmt(g, node, at).0;
    lemma_stmt_grows(g, node, at);
    lemma_kinds_differ();
    let all = all_kinds();
    assert(all[0] != all[1] && all[0] != all[2] && all[0] != all[3] && all[0] != all[4] && all[0]
        != all[5] && all[0] != all[6] && all[0] != all[7] && all[0] != all[8]);
    assert(all[1] != all[2] && all[1] != all[3] && all[1] != all[4] && all[1] != all[5] && all[1]
        != all[6] && all[1] != all[7] && all[1] != all[8]);
    assert(all[2] != all[3] && all[2] != all[4] && all[2] != all[5] && all[2] != all[6] && all[2]
        != all[7] && all[2] != all[8]);
    assert(all[3] != all[4] && all[3] != all[5] && all[3] != all[6] && all[3] != all[7] && all[3]
        != all[8]);
    assert(all[4] != all[5] && all[4] != all[6] && all[4] != all[7] && all[4] != all[8]);
    assert(all[5] != all[6] && all[5] != all[7] && all[5] != all[8]);
    assert(all[6] != all[7] && all[6] != all[8] && all[7] != all[8]);
    let ret = StmtView::Return { value: returned_var(node) };
    if node.kind@ == "if_statement"@ {
        lemma_conditional_places(g, node, at);
        let (asked, yes, no) = choose|asked: NodeId, yes: NodeId, no: NodeId| #[trigger]
            arms_placed(node, asked, yes, no, m) && (node.has_role("condition"@) ==> cfg::holds_at(
                m,
                asked as int,
                StmtView::Other("if "@ + text::trimmed(node.role("condition"@).text@)),
            )) && (!node.has_role("initializer"@) ==> asked == at) && (node.has_role(
                "initializer"@,
            ) ==> placed_at(node.role("initializer"@), at, m));
        lemma_arms_stay(node, asked, yes, no, m, h);
        if node.has_role("initializer"@) {
            lemma_placed_stays(node.role("initializer"@), at, m, h);
        }
        cfg::lemma_grown_keeps(
            m,
            h,
            asked as int,
            StmtView::Other("if "@ + text::trimmed(node.role("condition"@).text@)),
            (at, yes, EdgeKind::True),
        );
        assert(arms_placed(node, asked, yes, no, h));
    } else if node.kind@ == "for_statement"@ {
        lemma_for_places(g, node, at);
        let after = for_loop(g, node, at).1;
        let (start, end) = choose|start: NodeId, end: NodeId| #[trigger]
            body_placed(node, at, start, end, after, m);
        lemma_body_stays(node, at, start, end, after, m, h);
        assert(body_placed(node, at, start, end, after, h));
    } else if node.kind@ == "return_statement"@ {
        shape::a_return_leads_to_the_exit(g, node, at, returned_var(node));
        cfg::lemma_grown_keeps(m, h, at as int, ret, (at, g.exit, EdgeKind::Fallthrough));
    } else if node.kind@ == "short_var_declaration"@ || node.kind@ == "assignment_statement"@ {
        cfg::lemma_stmts_grow(g, at, assign_stmts(node));
        assert forall|k: int| 0 <= k < assign_stmts(node).len() implies cfg::holds_at(
            h,
            at as int,
            #[trigger] assign_stmts(node)[k],
        ) by {
            cfg::lemma_grown_keeps(m, h, at as int, assign_stmts(node)[k], (at, at, EdgeKind::True));
        }
    } else {
        let left = if node.kind@ == "var_declaration"@ {
            var_stmt(node)
        } else if node.kind@ == "go_statement"@ {
            closure_stmt(node, ClosureKind::Goroutine)
        } else if node.kind@ == "defer_statement"@ {
            closure_stmt(node, ClosureKind::Deferred)
        } else if node.kind@ == "expression_statement"@ {
            expression_stmt(node)
        } else {
            shape::other(node)
        };
        cfg::lemma_steps_grow(g, 0, at, left, at, EdgeKind::True);
        cfg::lemma_grown_keeps(m, h, at as int, left, (at, at, EdgeKind::True));
    }
}

proof fn lemma_placed_stays(node: SyntaxNode, at: NodeId, m: GraphView, h: GraphView)
    requires
        cfg::grown(m, h),
    ensures
        placed_at(node, at, m) ==> placed_at(node, at, h),
        placed(node, m) ==> placed(node, h),
{
    assert forall|n: NodeId| #[trigger] placed_at(node, n, m) implies placed_at(node, n, h) by {
        let g = choose|g: GraphView|
            n < g.nodes.len() && cfg::grown(#[trigger] stmt(g, node, n).0, m);
        cfg::lemma_grown_twice(stmt(g, node, n).0, m, h);
    }
}

proof fn lemma_block_stays(node: SyntaxNode, at: NodeId, m: GraphView, h: GraphView)
    requires
        cfg::grown(m, h),
        block_placed(node, at, m),
    ensures
        block_placed(node, at, h),
{
    assert forall|list: SyntaxNode, i: int|
        #![trigger is_list_of(list, node), list.children@[i]]
        is_list_of(list, node) && 0 <= i < list.children@.len()
            && list.children@[i].named implies placed(list.children@[i], h) && ((forall|j: int|
        0 <= j < i ==> !(#[trigger] list.children@[j]).named) ==> placed_at(
        list.children@[i],
        at,
        h,
    )) by {
        lemma_placed_stays(list.children@[i], at, m, h);
    }
}

proof fn lemma_arms_stay(node: SyntaxNode, at: NodeId, yes: NodeId, no: NodeId, m: GraphView, h: GraphView)
    requires
        cfg::grown(m, h),
        arms_placed(node, at, yes, no, m),
    ensures
        arms_placed(node, at, yes, no, h),
{
    let any = shape::other(node);
    cfg::lemma_grown_keeps(m, h, 0, any, (at, yes, EdgeKind::True));
    cfg::lemma_grown_keeps(m, h, 0, any, (at, no, EdgeKind::False));
    if node.has_role("consequence"@) {
        lemma_block_stays(node.role("consequence"@), yes, m, h);
    }
    if node.has_role("alternative"@) {
        let alternative = node.role("alternative"@);
        lemma_placed_stays(alternative, no, m, h);
        if alternative.kind@ == "block"@ {
            lemma_block_stays(alternative, no, m, h);
        }
    }
}

proof fn lemma_body_stays(
    node: SyntaxNode,
    header: NodeId,
    start: NodeId,
    end: NodeId,
    after: NodeId,
    m: GraphView,
    h: GraphView,
)
    requires
        cfg::grown(m, h),
        body_placed(node, header, start, end, after, m),
    ensures
        body_placed(node, header, start, end, after, h),
{
    let bind = StmtView::LoopVarBind { vars: range_vars(node) };
    cfg::lemma_grown_keeps(m, h, start as int, bind, (header, start, EdgeKind::True));
    cfg::lemma_grown_keeps(m, h, 0, bind, (end, header, EdgeKind::Loop));
    cfg::lemma_grown_keeps(m, h, 0, bind, (header, after, EdgeKind::False));
    if node.has_role("body"@) {
        lemma_block_stays(node.role("body"@), start, m, h);
    }
}

/// A statement stands directly in another: in an arm of a conditional, as its
/// initializer or its next conditional, or in the body of a loop.
pub open spec fn directly_in(inner: SyntaxNode, outer: SyntaxNode) -> bool {
    ||| outer.kind@ == "if_statement"@ && outer.has_role("initializer"@) && inner == outer.role(
        "initializer"@,
    )
    ||| outer.kind@ == "if_statement"@ && outer.has_role("consequence"@) && stands_in(
        inner,
        outer.role("consequence"@),
    )
    ||| outer.kind@ == "if_statement"@ && outer.has_role("alternative"@) && outer.role(
        "alternative"@,
    ).kind@ == "block"@ && stands_in(inner, outer.role("alternative"@))
    ||| outer.kind@ == "if_statement"@ && outer.has_role("alternative"@) && outer.role(
        "alternative"@,
    ).kind@ != "block"@ && inner == outer.role("alternative"@)
    ||| outer.kind@ == "for_statement"@ && outer.has_role("body"@) && stands_in(
        inner,
        outer.role("body"@),
    )
}

/// A statement is one of those that a block lists.
pub open spec fn stands_in(inner: SyntaxNode, node: SyntaxNode) -> bool {
    exists|list: SyntaxNode, i: int|
        #![trigger is_list_of(list, node), list.children@[i]]
        is_list_of(list, node) && 0 <= i < list.children@.len() && list.children@[i].named && inner
            == list.children@[i]
}

/// Every statement of a function, at whatever depth it stands in conditionals and
/// loops, is part of the function's graph. `chain` leads to it from a statement of
/// the function's body, each in the one before it.
pub proof fn every_statement_is_lowered(fn_node: SyntaxNode, chain: Seq<SyntaxNode>)
    requires
        fn_node.has_role("body"@),
        chain.len() > 0,
        stands_in(chain[0], fn_node.role("body"@)),
        forall|i: int| 0 <= i < chain.len() - 1 ==> directly_in(#[trigger] chain[i + 1], chain[i]),
    ensures
        placed(chain.last(), function(fn_node)),
    decreases chain.len(),
{
    let h = function(fn_node);
    if chain.len() == 1 {
        let g = shape::opened(fn_node);
        let body = fn_node.role("body"@);
        let (m, end) = block(g, body, 0);
        lemma_block_grows(g, body, 0);
        cfg::lemma_steps_grow(m, 0, end, shape::other(fn_node), 1, EdgeKind::Fallthrough);
        lemma_block_placed(g, body, 0, h);
    } else {
        let outer = chain[chain.len() - 2];
        let inner = chain[chain.len() - 1];
        let rest = chain.drop_last();
        assert forall|i: int| 0 <= i < rest.len() - 1 implies directly_in(
            #[trigger] rest[i + 1],
            rest[i],
        ) by {
            assert(rest[i + 1] == chain[i + 1] && rest[i] == chain[i]);
        }
        every_statement_is_lowered(fn_node, rest);
        assert(chain[chain.len() - 2 + 1] == inner);
        assert(directly_in(chain[chain.len() - 2 + 1], chain[chain.len() - 2]));
        let at = choose|at: NodeId| #[trigger] placed_at(outer, at, h);
        a_statement_leaves_its_trace(outer, at, h);
        if outer.kind@ == "if_statement"@ {
            let (asked, yes, no) = choose|asked: NodeId, yes: NodeId, no: NodeId| #[trigger]
                arms_placed(outer, asked, yes, no, h) && (outer.has_role("condition"@)
                    ==> cfg::holds_at(
                    h,
                    asked as int,
                    StmtView::Other("if "@ + text::trimmed(outer.role("condition"@).text@)),
                )) && (!outer.has_role("initializer"@) ==> asked == at) && (outer.has_role(
                    "initializer"@,
                ) ==> placed_at(outer.role("initializer"@), at, h));
            if placed_at(inner, no, h) {
            }
        } else {
            let (start, end, after) = choose|start: NodeId, end: NodeId, after: NodeId| #[trigger]
                body_placed(outer, at, start, end, after, h);
        }
    }
}

/// A function's graph has an entry and an exit of its own; the first statement of
/// the body stands in the entry.
pub proof fn functions_begin_at_their_entry(fn_node: SyntaxNode)
    ensures
        function(fn_node).entry == 0,
        function(fn_node).exit == 1,
        function(fn_node).nodes.len() >= 2,
        function(fn_node).nodes[0].source_line == fn_node.first_line(),
        function(fn_node).nodes[1].source_line == fn_node.last_line(),
        exists|end: NodeId| cfg::joins_nodes(function(fn_node), end, 1, EdgeKind::Fallthrough),
        fn_node.has_role("body"@) ==> block_placed(fn_node.role("body"@), 0, function(fn_node)),
{
    let h = function(fn_node);
    let g = shape::opened(fn_node);
    let any = shape::other(fn_node);
    let (m, end) = if fn_node.has_role("body"@) {
        block(g, fn_node.role("body"@), 0)
    } else {
        (g, 0)
    };
    cfg::lemma_steps_grow(g, 0, 0, any, 1, EdgeKind::Fallthrough);
    if fn_node.has_role("body"@) {
        lemma_block_grows(g, fn_node.role("body"@), 0);
    }
    cfg::lemma_steps_grow(m, 0, end, any, 1, EdgeKind::Fallthrough);
    cfg::lemma_grown_twice(g, m, h);
    assert(g.nodes[0].source_line == fn_node.first_line());
    assert(h.nodes[0].source_line == g.nodes[0].source_line);
    assert(h.nodes[1].source_line == g.nodes[1].source_line);
    if fn_node.has_role("body"@) {
        lemma_block_placed(g, fn_node.role("body"@), 0, h);
    }
}

proof fn lemma_kinds_differ()
    ensures
        kinds_differ(),
{
    reveal_strlit("short_var_declaration");
    reveal_strlit("assignment_statement");
    reveal_strlit("var_declaration");
    reveal_strlit("return_statement");
    reveal_strlit("if_statement");
    reveal_strlit("for_statement");
    reveal_strlit("go_statement");
    reveal_strlit("defer_statement");
    reveal_strlit("expression_statement");
    let all = all_kinds();
    assert forall|i: int, j: int| 0 <= i < j < 9 implies #[trigger] all[i] != #[trigger] all[j] by {
        if all[i].len() == all[j].len() {
            assert(all[i][0] != all[j][0]);
        }
    }
}

spec fn all_kinds() -> Seq<Seq<char>> {
    seq![
        "short_var_declaration"@,
        "assignment_statement"@,
        "var_declaration"@,
        "return_statement"@,
        "if_statement"@,
        "for_statement"@,
        "go_statement"@,
        "defer_statement"@,
        "expression_statement"@,
    ]
}

spec fn kinds_differ() -> bool {
    let all = all_kinds();
    forall|i: int, j: int| 0 <= i < j < 9 ==> #[trigger] all[i] != #[trigger] all[j]
}

/// What a call calls: an identifier, or an operand, a dot and a field.
pub proof fn calls_are_named_by_what_they_call(call: SyntaxNode)
    ensures
        call.has_role("function"@) && call.role("function"@).kind@ == "identifier"@ ==> call_name(
            call,
        ) == Some(text::trimmed(call.role("function"@).text@)),
        call.has_role("function"@) && call.role("function"@).kind@ == "selector_expression"@ && (
        call.role("function"@).has_role("operand"@) && call.role("function"@).has_role("field"@))
            ==> call_name(call) == Some(
            text::trimmed(call.role("function"@).role("operand"@).text@) + "."@ + text::trimmed(
                call.role("function"@).role("field"@).text@,
            ),
        ),
        !call.has_role("function"@) ==> call_name(call) is None,
{
    lemma_expressions_differ();
}

/// The arguments of a call are what its argument list names, in order: an
/// identifier, an identifier behind an address operator, which is kept, or the
/// identifier of an index expression.
pub proof fn arguments_are_what_the_list_names(call: SyntaxNode)
    ensures
        call.has_role("arguments"@) ==> shape::picked(
            call.role("arguments"@).children@,
            |n: SyntaxNode|
                if !n.named {
                    None
                } else if n.kind@ == "identifier"@ {
                    Some(text::trimmed(n.text@))
                } else if n.has_role("operand"@) && n.role("operand"@).kind@ == "identifier"@ && (
                n.kind@ == "unary_expression"@ && text::begins(text::trimmed(n.text@), "&"@)) {
                    Some("&"@ + text::trimmed(n.role("operand"@).text@))
                } else if n.has_role("operand"@) && n.role("operand"@).kind@ == "identifier"@
                    && n.kind@ == "index_expression"@ {
                    Some(text::trimmed(n.role("operand"@).text@))
                } else {
                    None
                },
            call_args(call),
        ),
        !call.has_role("arguments"@) ==> call_args(call).len() == 0,
{
    if call.has_role("arguments"@) {
        lemma_args_picked(call.role("arguments"@).children@);
    }
}

proof fn lemma_args_picked(nodes: Seq<SyntaxNode>)
    ensures
        shape::picked(
            nodes,
            |n: SyntaxNode|
                if !n.named {
                    None
                } else if n.kind@ == "identifier"@ {
                    Some(text::trimmed(n.text@))
                } else if n.has_role("operand"@) && n.role("operand"@).kind@ == "identifier"@ && (
                n.kind@ == "unary_expression"@ && text::begins(text::trimmed(n.text@), "&"@)) {
                    Some("&"@ + text::trimmed(n.role("operand"@).text@))
                } else if n.has_role("operand"@) && n.role("operand"@).kind@ == "identifier"@
                    && n.kind@ == "index_expression"@ {
                    Some(text::trimmed(n.role("operand"@).text@))
                } else {
                    None
                },
            args_among(nodes),
        ),
    decreases nodes.len(),
{
    let says = |n: SyntaxNode|
        if !n.named {
            None
        } else if n.kind@ == "identifier"@ {
            Some(text::trimmed(n.text@))
        } else if n.has_role("operand"@) && n.role("operand"@).kind@ == "identifier"@ && (n.kind@
            == "unary_expression"@ && text::begins(text::trimmed(n.text@), "&"@)) {
            Some("&"@ + text::trimmed(n.role("operand"@).text@))
        } else if n.has_role("operand"@) && n.role("operand"@).kind@ == "identifier"@ && n.kind@
            == "index_expression"@ {
            Some(text::trimmed(n.role("operand"@).text@))
        } else {
            None
        };
    if nodes.len() == 0 {
        shape::lemma_picked_none(says);
        assert(nodes =~= Seq::empty());
        assert(args_among(nodes) =~= Seq::<Seq<char>>::empty());
    } else {
        lemma_args_picked(nodes.drop_last());
        lemma_expressions_differ();
        shape::lemma_picked_push(
            nodes.drop_last(),
            nodes.last(),
            says,
            args_among(nodes.drop_last()),
        );
        assert(nodes.drop_last().push(nodes.last()) =~= nodes);
    }
}

/// What the right side of an assignment is taken for.
pub proof fn right_sides_are_recognised(node: SyntaxNode)
    ensures
        node.kind@ == "identifier"@ ==> rhs_of(node) == RhsView::Var(text::trimmed(node.text@)),
        node.kind@ == "nil"@ ==> rhs_of(node) == RhsView::NilLiteral,
        node.kind@ == "slice_expression"@ && node.has_role("operand"@) ==> rhs_of(node)
            == (RhsView::Reslice { of: text::trimmed(node.role("operand"@).text@) }),
        node.kind@ == "unary_expression"@ && node.has_role("operand"@) && node.role(
            "operand"@,
        ).kind@ == "identifier"@ && text::begins(text::trimmed(node.text@), "&"@) ==> rhs_of(node)
            == (RhsView::AddressOf { of: text::trimmed(node.role("operand"@).text@) }),
        node.kind@ == "binary_expression"@ && node.has_role("left"@) && node.has_role("right"@) && (
        exists|i: int|
            0 <= i < node.children@.len() && i != node.at_role("left"@) && i != node.at_role(
                "right"@,
            ) && text::trimmed((#[trigger] node.children@[i]).text@) == "+"@) ==> (rhs_of(node)
            matches RhsView::Concat { parts } && text::strictly_ordered(parts) && forall|
            x: Seq<char>,
        | #[trigger]
            parts.contains(x) <==> syntax::identifiers_in(node.role("left"@)).contains(x)
                || syntax::identifiers_in(node.role("right"@)).contains(x)),
        rhs_of(node) is Concat ==> node.kind@ == "binary_expression"@,
        rhs_of(node) is Var ==> node.kind@ == "identifier"@,
        rhs_of(node) is NilLiteral ==> node.kind@ == "nil"@,
        rhs_of(node) is Reslice ==> node.kind@ == "slice_expression"@,
        rhs_of(node) is AddressOf ==> node.kind@ == "unary_expression"@,
{
    lemma_expressions_differ();
    if node.kind@ == "binary_expression"@ && node.has_role("left"@) && node.has_role("right"@) {
        let a = syntax::identifiers_in(node.role("left"@));
        let b = syntax::identifiers_in(node.role("right"@));
        text::ordered_set_is_ordered(a + b);
        assert forall|x: Seq<char>| #[trigger] text::ordered_set(a + b).contains(x) <==> a.contains(
            x,
        ) || b.contains(x) by {
            text::lemma_joined_contains(a, b, x);
        }
    }
}

proof fn lemma_expressions_differ()
    ensures
        "identifier"@ != "nil"@,
        "identifier"@ != "slice_expression"@,
        "identifier"@ != "unary_expression"@,
        "identifier"@ != "index_expression"@,
        "identifier"@ != "binary_expression"@,
        "identifier"@ != "selector_expression"@,
        "identifier"@ != "call_expression"@,
        "identifier"@ != "composite_literal"@,
        "nil"@ != "slice_expression"@,
        "nil"@ != "unary_expression"@,
        "nil"@ != "binary_expression"@,
        "slice_expression"@ != "unary_expression"@,
        "slice_expression"@ != "binary_expression"@,
        "unary_expression"@ != "binary_expression"@,
        "unary_expression"@ != "index_expression"@,
        "call_expression"@ != "composite_literal"@,
        "call_expression"@ != "unary_expression"@,
        "call_expression"@ != "nil"@,
        "call_expression"@ != "slice_expression"@,
        "call_expression"@ != "binary_expression"@,
        "composite_literal"@ != "unary_expression"@,
{
    reveal_strlit("identifier");
    reveal_strlit("nil");
    reveal_strlit("slice_expression");
    reveal_strlit("unary_expression");
    reveal_strlit("index_expression");
    reveal_strlit("binary_expression");
    reveal_strlit("selector_expression");
    reveal_strlit("call_expression");
    reveal_strlit("composite_literal");
    assert("identifier"@.len() != "nil"@.len());
    assert("identifier"@.len() != "index_expression"@.len());
    assert("call_expression"@[1] != "composite_literal"@[1]);
    assert("slice_expression"@[0] != "unary_expression"@[0]);
    assert("unary_expression"@[0] != "index_expression"@[0]);
    assert("binary_expression"@[0] != "composite_literal"@[0]);
}

/// One identifier on the left of an assignment and one expression on the right.
pub open spec fn assigns_one(node: SyntaxNode, lhs: Seq<char>, rhs: SyntaxNode) -> bool {
    &&& node.has_role("left"@) && node.has_role("right"@)
    &&& syntax::named_count_of(node.role("left"@).children@) == 1
    &&& syntax::named_count_of(node.role("right"@).children@) == 1
    &&& node.role("left"@).has_named(0) && node.role("right"@).has_named(0)
    &&& node.role("left"@).named_child(0).kind@ == "identifier"@
    &&& lhs == text::trimmed(node.role("left"@).named_child(0).text@)
    &&& rhs == node.role("right"@).named_child(0)
}

/// What an assignment of one expression to one identifier becomes: a call of a
/// named function is a call whose result the identifier keeps; a composite literal
/// with fields that are identifiers is a call for each of them; everything else is
/// an assignment of what the expression is.
pub proof fn single_assignments_keep_their_name(node: SyntaxNode, lhs: Seq<char>, rhs: SyntaxNode)
    requires
        assigns_one(node, lhs, rhs),
    ensures
        rhs.kind@ == "call_expression"@ ==> (call_name(rhs) matches Some(name) ==> assign_stmts(node)
            == seq![
            StmtView::Call {
                target: cfg::CallTargetView::Named(name),
                args: call_args(rhs),
                assigned_to: Some(lhs),
            },
        ]),
        rhs.kind@ == "call_expression"@ && call_name(rhs) is None ==> assign_stmts(node) == seq![
            StmtView::Assign { lhs, rhs: RhsView::Unknown },
        ],
        rhs.kind@ != "call_expression"@ && rhs.kind@ != "composite_literal"@ && rhs.kind@
            != "unary_expression"@ ==> assign_stmts(node) == seq![
            StmtView::Assign { lhs, rhs: rhs_of(rhs) },
        ],
        rhs.kind@ == "unary_expression"@ && (rhs.has_role("operand"@) && rhs.role("operand"@).kind@
            == "identifier"@) ==> assign_stmts(node) == seq![
            StmtView::Assign { lhs, rhs: rhs_of(rhs) },
        ],
        rhs.kind@ == "composite_literal"@ && composite_calls(rhs).len() > 0 ==> assign_stmts(node)
            == composite_calls(rhs),
        rhs.kind@ == "unary_expression"@ && (rhs.has_role("operand"@) && rhs.role("operand"@).kind@
            == "composite_literal"@) && composite_calls(rhs.role("operand"@)).len() > 0
            ==> assign_stmts(node) == composite_calls(rhs.role("operand"@)),
{
    lemma_expressions_differ();
}

/// Of two identifiers on the left of one call, the first keeps the result, unless
/// it is a blank.
pub proof fn the_first_of_two_keeps_the_result(node: SyntaxNode)
    requires
        node.has_role("left"@) && node.has_role("right"@),
        syntax::named_count_of(node.role("left"@).children@) == 2,
        syntax::named_count_of(node.role("right"@).children@) == 1,
        node.role("left"@).has_named(0) && node.role("right"@).has_named(0),
        node.role("right"@).named_child(0).kind@ == "call_expression"@,
        node.role("left"@).named_child(0).kind@ == "identifier"@,
        text::trimmed(node.role("left"@).named_child(0).text@) != "_"@,
    ensures
        call_name(node.role("right"@).named_child(0)) matches Some(name) ==> assign_stmts(node)
            == seq![
            StmtView::Call {
                target: cfg::CallTargetView::Named(name),
                args: call_args(node.role("right"@).named_child(0)),
                assigned_to: Some(text::trimmed(node.role("left"@).named_child(0).text@)),
            },
        ],
{
}

/// A composite literal sets a field to an identifier: that is a call of the type
/// with the field in braces, on the identifier.
pub proof fn fields_of_literals_are_calls(composite: SyntaxNode, i: int)
    requires
        composite.has_role("body"@),
        0 <= i < composite.role("body"@).children@.len(),
        ({
            let element = composite.role("body"@).children@[i];
            element.named && element.kind@ == "keyed_element"@ && element.has_role("key"@)
                && element.has_role("value"@) && element.role("value"@).has_named(0)
                && element.role("value"@).named_child(0).kind@ == "identifier"@
        }),
        composite.has_role("type"@),
        composite.role("type"@).kind@ == "type_identifier"@,
    ensures
        ({
            let element = composite.role("body"@).children@[i];
            composite_calls(composite).contains(
                StmtView::Call {
                    target: cfg::CallTargetView::Named(
                        text::trimmed(composite.role("type"@).text@) + "{"@ + text::trimmed(
                            element.role("key"@).text@,
                        ) + "}"@,
                    ),
                    args: seq![text::trimmed(element.role("value"@).named_child(0).text@)],
                    assigned_to: None,
                },
            )
        }),
{
    reveal_strlit("type_identifier");
    reveal_strlit("qualified_type");
    assert("type_identifier"@.len() != "qualified_type"@.len());
    lemma_field_calls(
        text::trimmed(composite.role("type"@).text@),
        composite.role("body"@).children@,
        i,
    );
}

proof fn lemma_field_calls(built: Seq<char>, elements: Seq<SyntaxNode>, i: int)
    requires
        0 <= i < elements.len(),
        field_call(built, elements[i]) is Some,
    ensures
        field_calls(built, elements).contains(field_call(built, elements[i])->0),
    decreases elements.len(),
{
    let rest = elements.drop_last();
    let call = field_call(built, elements[i])->0;
    if i < rest.len() {
        assert(rest[i] == elements[i]);
        lemma_field_calls(built, rest, i);
        if let Some(more) = field_call(built, elements.last()) {
            text::lemma_push_contains(field_calls(built, rest), more, call);
        }
    } else {
        text::lemma_push_contains(field_calls(built, rest), call, call);
    }
}

/// A declaration of one variable: a pointer without an initializer starts out nil,
/// one with an initializer is what that is, and nothing else is modelled.
pub proof fn pointers_start_out_nil(node: SyntaxNode, i: int)
    requires
        0 <= i < node.children@.len(),
        i == syntax::named_kind_index(node.children@, "var_spec"@),
        syntax::named_kind_count(node.children@, "var_spec"@) == 1,
        syntax::named_kind_count(node.children@[i].children@, "identifier"@) == 1,
        node.children@[i].has_role("name"@),
        node.children@[i].has_role("type"@),
    ensures
        ({
            let spec = node.children@[i];
            let lhs = text::trimmed(spec.role("name"@).text@);
            &&& spec.has_role("value"@) ==> var_stmt(node) == (StmtView::Assign {
                lhs,
                rhs: rhs_of(spec.role("value"@)),
            })
            &&& !spec.has_role("value"@) && spec.role("type"@).kind@ == "pointer_type"@ ==> var_stmt(
                node,
            ) == (StmtView::Assign { lhs, rhs: RhsView::NilLiteral })
            &&& !spec.has_role("value"@) && spec.role("type"@).kind@ != "pointer_type"@ ==> var_stmt(
                node,
            ) == StmtView::Other(text::trimmed(node.text@))
        }),
{
}

/// A return of one identifier gives that identifier back.
pub proof fn a_returned_identifier_is_kept(node: SyntaxNode)
    ensures
        node.has_named(0) && node.named_child(0).kind@ == "expression_list"@
            && syntax::named_count_of(node.named_child(0).children@) == 1 && node.named_child(
            0,
        ).has_named(0) && node.named_child(0).named_child(0).kind@ == "identifier"@ ==> returned_var(
            node,
        ) == Some(text::trimmed(node.named_child(0).named_child(0).text@)),
        returned_var(node) is Some ==> node.has_named(0) && node.named_child(0).has_named(0)
            && node.named_child(0).named_child(0).kind@ == "identifier"@
            && syntax::named_count_of(node.named_child(0).children@) == 1,
{
}

/// What a condition says of a variable: a comparison of an identifier with nil, on
/// either side, by its operator.
pub proof fn comparisons_with_nil_are_guards(cond: SyntaxNode)
    requires
        cond.has_role("left"@),
        cond.has_role("right"@),
    ensures
        ({
            let (left, right) = (cond.role("left"@), cond.role("right"@));
            let op = shape::guard_op(text::trimmed(cond.text@));
            &&& cond.kind@ == "binary_expression"@ && left.kind@ == "identifier"@ && right.kind@
                == "nil"@ ==> (op matches Some(o) ==> nil_guard(cond) == Some(
                (text::trimmed(left.text@), o),
            ))
            &&& cond.kind@ == "binary_expression"@ && right.kind@ == "identifier"@ && left.kind@
                == "nil"@ ==> (op matches Some(o) ==> nil_guard(cond) == Some(
                (text::trimmed(right.text@), o),
            ))
            &&& nil_guard(cond) is Some ==> cond.kind@ == "binary_expression"@ && op is Some && (
            left.kind@ == "nil"@ || right.kind@ == "nil"@)
        }),
{
    lemma_expressions_differ();
}

/// The variables that a range clause declares are the identifiers on its left that
/// are no blanks, in order.
pub proof fn range_clauses_declare_their_identifiers(stmt: SyntaxNode, i: int)
    requires
        0 <= i < stmt.children@.len(),
        i == syntax::named_kind_index(stmt.children@, "range_clause"@),
        stmt.children@[i].has_role("left"@),
    ensures
        shape::picked(
            stmt.children@[i].role("left"@).children@,
            |n: SyntaxNode|
                if n.named && n.kind@ == "identifier"@ && text::trimmed(n.text@) != "_"@ {
                    Some(text::trimmed(n.text@))
                } else {
                    None
                },
            range_vars(stmt),
        ),
{
    lemma_vars_picked(stmt.children@[i].role("left"@).children@);
}

proof fn lemma_vars_picked(nodes: Seq<SyntaxNode>)
    ensures
        shape::picked(
            nodes,
            |n: SyntaxNode|
                if n.named && n.kind@ == "identifier"@ && text::trimmed(n.text@) != "_"@ {
                    Some(text::trimmed(n.text@))
                } else {
                    None
                },
            vars_among(nodes),
        ),
    decreases nodes.len(),
{
    let says = |n: SyntaxNode|
        if n.named && n.kind@ == "identifier"@ && text::trimmed(n.text@) != "_"@ {
            Some(text::trimmed(n.text@))
        } else {
            None
        };
    if nodes.len() == 0 {
        shape::lemma_picked_none(says);
        assert(nodes =~= Seq::empty());
        assert(vars_among(nodes) =~= Seq::<Seq<char>>::empty());
    } else {
        lemma_vars_picked(nodes.drop_last());
        shape::lemma_picked_push(
            nodes.drop_last(),
            nodes.last(),
            says,
            vars_among(nodes.drop_last()),
        );
        assert(nodes.drop_last().push(nodes.last()) =~= nodes);
    }
}

/// A `go` or `defer` of a function literal without parameters captures every
/// identifier in its body, but for the one that it first copies to itself; any
/// other call is not modelled.
pub proof fn bare_closures_capture_what_they_name(stmt: SyntaxNode, kind: ClosureKind, x: Seq<char>)
    ensures
        bare_closure_body(stmt) matches Some(body) ==> (closure_stmt(stmt, kind)
            matches StmtView::ClosureCapture { captured, kind: k } && k == kind
            && text::strictly_ordered(captured) && (captured.contains(x)
            <==> syntax::identifiers_in(body).contains(x) && shadowed_first(body) != Some(x))),
        bare_closure_body(stmt) is None ==> closure_stmt(stmt, kind) == StmtView::Other(
            text::trimmed(stmt.text@),
        ),
{
    if let Some(body) = bare_closure_body(stmt) {
        let all = syntax::identifiers_in(body);
        let free = match shadowed_first(body) {
            Some(var) => text::without(all, var),
            None => all,
        };
        text::ordered_set_is_ordered(free);
        if let Some(var) = shadowed_first(body) {
            text::lemma_without(all, var, x);
        }
    }
}

/// The closure that a `go` or `defer` calls: a function literal without
/// parameters.
pub proof fn closures_without_parameters_are_bare(stmt: SyntaxNode)
    requires
        stmt.has_named(0),
        stmt.named_child(0).kind@ == "call_expression"@,
        stmt.named_child(0).has_role("function"@),
        stmt.named_child(0).role("function"@).kind@ == "func_literal"@,
        stmt.named_child(0).role("function"@).has_role("body"@),
    ensures
        ({
            let func = stmt.named_child(0).role("function"@);
            let given = func.has_role("parameters"@) && syntax::named_count_of(
                func.role("parameters"@).children@,
            ) > 0;
            &&& !given ==> bare_closure_body(stmt) == Some(func.role("body"@))
            &&& given ==> bare_closure_body(stmt) is None
        }),
{
}

/// A statement that is lowered into the node `at` ends in the node `end`, and the
/// outcome is part of `h`.
pub open spec fn runs(node: SyntaxNode, at: NodeId, end: NodeId, h: GraphView) -> bool {
    exists|g: GraphView|
        at < g.nodes.len() && end == (#[trigger] stmt(g, node, at)).1 && cfg::grown(
            stmt(g, node, at).0,
            h,
        )
}

/// Statements follow each other: each begins in the node in which the one before it
/// ends. `ends` gives those nodes.
pub open spec fn follow(nodes: Seq<SyntaxNode>, at: NodeId, ends: Seq<NodeId>, h: GraphView) -> bool {
    &&& ends.len() == nodes.len() + 1
    &&& ends[0] == at
    &&& forall|i: int|
        0 <= i < nodes.len() ==> if (#[trigger] nodes[i]).named {
            runs(nodes[i], ends[i], ends[i + 1], h)
        } else {
            ends[i] == ends[i + 1]
        }
}

/// The statements of a block follow each other from the node `at` to the node `end`.
pub open spec fn block_runs(node: SyntaxNode, at: NodeId, end: NodeId, h: GraphView) -> bool {
    &&& forall|list: SyntaxNode| #[trigger]
        is_list_of(list, node) ==> exists|ends: Seq<NodeId>| #[trigger]
            follow(list.children@, at, ends, h) && ends.last() == end
    &&& (forall|list: SyntaxNode| !#[trigger] is_list_of(list, node)) ==> end == at
}

/// The statements of a list follow each other.
pub proof fn statements_follow_each_other(
    g: GraphView,
    nodes: Seq<SyntaxNode>,
    current: NodeId,
    h: GraphView,
)
    requires
        current < g.nodes.len(),
        cfg::grown(stmts(g, nodes, current).0, h),
    ensures
        exists|ends: Seq<NodeId>| #[trigger]
            follow(nodes, current, ends, h) && ends.last() == stmts(g, nodes, current).1,
    decreases nodes.len(),
{
    if nodes.len() == 0 {
        let ends = seq![current];
        assert(follow(nodes, current, ends, h));
    } else {
        let rest = nodes.drop_last();
        let (mid, now) = stmts(g, rest, current);
        lemma_stmts_grows(g, rest, current);
        let next = stmts(g, nodes, current).1;
        if nodes.last().named {
            lemma_stmt_grows(mid, nodes.last(), now);
            cfg::lemma_grown_twice(mid, stmt(mid, nodes.last(), now).0, h);
            assert(runs(nodes.last(), now, next, h));
        }
        statements_follow_each_other(g, rest, current, h);
        let less = choose|ends: Seq<NodeId>| #[trigger]
            follow(rest, current, ends, h) && ends.last() == now;
        let ends = less.push(next);
        assert forall|i: int| 0 <= i < nodes.len() implies if (#[trigger] nodes[i]).named {
            runs(nodes[i], ends[i], ends[i + 1], h)
        } else {
            ends[i] == ends[i + 1]
        } by {
            if i < rest.len() {
                assert(rest[i] == nodes[i]);
            }
        }
        assert(follow(nodes, current, ends, h));
    }
}

proof fn lemma_block_runs(g: GraphView, node: SyntaxNode, current: NodeId, h: GraphView)
    requires
        current < g.nodes.len(),
        cfg::grown(block(g, node, current).0, h),
    ensures
        block_runs(node, current, block(g, node, current).1, h),
{
    let k = list_index(node) as int;
    syntax::the_first_of_a_kind_is_found(node.children@, "statement_list"@);
    if k < node.children@.len() {
        assert(is_list_of(node.children@[k], node));
        statements_follow_each_other(g, node.children@[k].children@, current, h);
    }
    assert forall|list: SyntaxNode| #[trigger] is_list_of(list, node) implies k
        < node.children@.len() && list == node.children@[k] by {
        let l = choose|l: int|
            0 <= l < node.children@.len() && #[trigger] node.children@[l] == list && list.named
                && list.kind@ == "statement_list"@ && forall|j: int|
                0 <= j < l ==> !((#[trigger] node.children@[j]).named && node.children@[j].kind@
                    == "statement_list"@);
        if k < l {
            assert(!(node.children@[k].named && node.children@[k].kind@ == "statement_list"@));
        }
    }
}

/// An arm, a block or a single statement, runs from the node `at` to the node `end`.
pub open spec fn arm_runs(node: SyntaxNode, at: NodeId, end: NodeId, h: GraphView) -> bool {
    &&& node.kind@ == "block"@ ==> block_runs(node, at, end, h)
    &&& node.kind@ != "block"@ ==> runs(node, at, end, h)
}

/// How a conditional runs from the node `at` to the node `end`: over a true edge,
/// through its arm and on to the end, and over a false edge, through the other arm
/// or through none, and on to the same end.
pub open spec fn arms_join(
    node: SyntaxNode,
    at: NodeId,
    yes: NodeId,
    yes_end: NodeId,
    no: NodeId,
    no_end: NodeId,
    end: NodeId,
    h: GraphView,
) -> bool {
    &&& cfg::joins_nodes(h, at, yes, EdgeKind::True)
    &&& node.has_role("consequence"@) ==> block_runs(node.role("consequence"@), yes, yes_end, h)
    &&& !node.has_role("consequence"@) ==> yes_end == yes
    &&& cfg::joins_nodes(h, yes_end, end, EdgeKind::Fallthrough)
    &&& node.has_role("alternative"@) ==> cfg::joins_nodes(h, at, no, EdgeKind::False) && cfg::joins_nodes(
        h,
        no_end,
        end,
        EdgeKind::Fallthrough,
    )
    &&& node.has_role("alternative"@) ==> arm_runs(node.role("alternative"@), no, no_end, h)
    &&& node.has_role("condition"@) ==> (nil_guard(node.role("condition"@)) matches Some((var, op))
        ==> cfg::holds_at(
        h,
        yes as int,
        StmtView::Guard { var, op, against: GuardAgainst::Nil },
    ) && (op == GuardOp::Equal ==> cfg::joins_nodes(h, at, no, EdgeKind::False) && cfg::holds_at(
        h,
        no as int,
        StmtView::Guard { var, op: GuardOp::NotEqual, against: GuardAgainst::Nil },
    )))
    &&& !(node.has_role("alternative"@)) ==> cfg::joins_nodes(h, at, end, EdgeKind::False) || (cfg::joins_nodes(
        h,
        at,
        no,
        EdgeKind::False,
    ) && cfg::joins_nodes(h, no, end, EdgeKind::Fallthrough))
}

/// A conditional runs through one of its arms, and both meet behind it.
pub proof fn conditionals_run_through_their_arms(
    node: SyntaxNode,
    at: NodeId,
    end: NodeId,
    h: GraphView,
)
    requires
        node.kind@ == "if_statement"@,
        runs(node, at, end, h),
    ensures
        !node.has_role("initializer"@) ==> exists|
            yes: NodeId,
            yes_end: NodeId,
            no: NodeId,
            no_end: NodeId,
        | #[trigger]
            arms_join(node, at, yes, yes_end, no, no_end, end, h),
        node.has_role("initializer"@) ==> exists|
            asked: NodeId,
            yes: NodeId,
            yes_end: NodeId,
            no: NodeId,
            no_end: NodeId,
        | #[trigger]
            arms_join(node, asked, yes, yes_end, no, no_end, end, h) && runs(
                node.role("initializer"@),
                at,
                asked,
                h,
            ),
{
    let g = choose|g: GraphView|
        at < g.nodes.len() && end == (#[trigger] stmt(g, node, at)).1 && cfg::grown(
            stmt(g, node, at).0,
            h,
        );
    lemma_kinds_differ();
    let all = all_kinds();
    assert(all[4] != all[0] && all[4] != all[1] && all[4] != all[2] && all[4] != all[3] && all[4]
        != all[5] && all[4] != all[6] && all[4] != all[7] && all[4] != all[8]);
    assert(all[5] != all[0] && all[5] != all[1] && all[5] != all[2] && all[5] != all[3] && all[5]
        != all[6] && all[5] != all[7] && all[5] != all[8]);
    assert(all[3] != all[0] && all[3] != all[1] && all[3] != all[2]);
    let m = stmt(g, node, at).0;
    assert(stmt(g, node, at) == conditional(g, node, at));
    let (g1, current) = if node.has_role("initializer"@) {
        stmt(g, node.role("initializer"@), at)
    } else {
        (g, at)
    };
    if node.has_role("initializer"@) {
        lemma_stmt_grows(g, node.role("initializer"@), at);
    }
    let asked = StmtView::Other("if "@ + text::trimmed(node.role("condition"@).text@));
    cfg::lemma_steps_grow(g1, 0, current, asked, current, EdgeKind::True);
    let g2 = if node.has_role("condition"@) {
        g1.with_stmt(current, asked)
    } else {
        g1
    };
    let guard = if node.has_role("condition"@) {
        nil_guard(node.role("condition"@))
    } else {
        None
    };
    shape::arms_begin_behind_their_edges(g2, node, current, guard);
    let (g3, yes) = shape::true_arm(g2, node, current, guard);
    let (g4, true_end) = if node.has_role("consequence"@) {
        block(g3, node.role("consequence"@), yes)
    } else {
        (g3, yes)
    };
    cfg::lemma_steps_grow(g3, 0, yes, asked, yes, EdgeKind::True);
    if node.has_role("consequence"@) {
        lemma_block_grows(g3, node.role("consequence"@), yes);
    }
    shape::arms_begin_behind_their_edges(g4, node, current, guard);
    cfg::lemma_steps_grow(g4, 0, current, asked, current, EdgeKind::True);
    let (g5, no, false_end) = if node.has_role("alternative"@) {
        let (a, no) = shape::false_arm(g4, node, current, guard);
        let (b, e) = if node.role("alternative"@).kind@ == "block"@ {
            block(a, node.role("alternative"@), no)
        } else {
            stmt(a, node.role("alternative"@), no)
        };
        (b, no, Some(e))
    } else {
        let (a, skipped) = shape::skipped_arm(g4, node, current, guard);
        (
            a,
            match skipped {
                Some(no) => no,
                None => 0,
            },
            skipped,
        )
    };
    if node.has_role("alternative"@) {
        let (a, n) = shape::false_arm(g4, node, current, guard);
        if node.role("alternative"@).kind@ == "block"@ {
            lemma_block_grows(a, node.role("alternative"@), n);
        } else {
            lemma_stmt_grows(a, node.role("alternative"@), n);
        }
        cfg::lemma_grown_twice(g4, a, g5);
        cfg::lemma_grown_keeps(a, g5, 0, asked, (current, no, EdgeKind::False));
        if let Some((var, op)) = guard {
            let denied = StmtView::Guard { var, op: GuardOp::NotEqual, against: GuardAgainst::Nil };
            cfg::lemma_grown_keeps(a, g5, no as int, denied, (current, no, EdgeKind::False));
        }
    }
    shape::arms_meet(g5, node, current, true_end, false_end);
    let no_end = match false_end {
        Some(e) => e,
        None => 0,
    };
    cfg::lemma_grown_twice(g5, m, h);
    cfg::lemma_grown_twice(g4, g5, h);
    cfg::lemma_grown_twice(g3, g4, h);
    cfg::lemma_grown_keeps(g3, h, 0, asked, (current, yes, EdgeKind::True));
    cfg::lemma_grown_keeps(g5, h, 0, asked, (current, no, EdgeKind::False));
    cfg::lemma_grown_keeps(m, h, 0, asked, (true_end, end, EdgeKind::Fallthrough));
    cfg::lemma_grown_keeps(m, h, 0, asked, (no_end, end, EdgeKind::Fallthrough));
    cfg::lemma_grown_keeps(m, h, 0, asked, (current, end, EdgeKind::False));
    cfg::lemma_grown_twice(g2, g3, h);
    cfg::lemma_grown_twice(g1, g2, h);
    if let Some((var, op)) = guard {
        let said = StmtView::Guard { var, op, against: GuardAgainst::Nil };
        let denied = StmtView::Guard { var, op: GuardOp::NotEqual, against: GuardAgainst::Nil };
        cfg::lemma_grown_keeps(g3, h, yes as int, said, (current, yes, EdgeKind::True));
        cfg::lemma_grown_keeps(g5, h, no as int, denied, (current, no, EdgeKind::False));
    }
    if node.has_role("consequence"@) {
        lemma_block_runs(g3, node.role("consequence"@), yes, h);
    }
    if node.has_role("alternative"@) {
        let arm = node.role("alternative"@);
        let a = shape::false_arm(g4, node, current, guard).0;
        if arm.kind@ == "block"@ {
            lemma_block_runs(a, arm, no, h);
        } else {
            assert(stmt(a, arm, no).1 == no_end);
        }
    }
    if node.has_role("initializer"@) {
        assert(stmt(g, node.role("initializer"@), at).1 == current);
        assert(runs(node.role("initializer"@), at, current, h));
    }
    assert(arms_join(node, current, yes, true_end, no, no_end, end, h));
}

/// How a loop runs: over a true edge from its header through its body and back, and
/// over a false edge on to its end.
pub open spec fn body_loops(
    node: SyntaxNode,
    header: NodeId,
    start: NodeId,
    body_end: NodeId,
    end: NodeId,
    h: GraphView,
) -> bool {
    &&& cfg::joins_nodes(h, header, start, EdgeKind::True)
    &&& node.has_role("body"@) ==> block_runs(node.role("body"@), start, body_end, h)
    &&& !(node.has_role("body"@)) ==> body_end == start
    &&& cfg::joins_nodes(h, body_end, header, EdgeKind::Loop)
    &&& cfg::joins_nodes(h, header, end, EdgeKind::False)
}

/// A loop runs through its body and back, and ends behind its header.
pub proof fn loops_run_through_their_body(
    node: SyntaxNode,
    at: NodeId,
    end: NodeId,
    h: GraphView,
)
    requires
        (node.kind@ == "for_statement"@),
        runs(node, at, end, h),
    ensures
        exists|start: NodeId, body_end: NodeId| #[trigger]
            body_loops(node, at, start, body_end, end, h),
{
    let g = choose|g: GraphView|
        at < g.nodes.len() && end == (#[trigger] stmt(g, node, at)).1 && cfg::grown(
            stmt(g, node, at).0,
            h,
        );
    lemma_kinds_differ();
    let all = all_kinds();
    assert(all[4] != all[0] && all[4] != all[1] && all[4] != all[2] && all[4] != all[3] && all[4]
        != all[5] && all[4] != all[6] && all[4] != all[7] && all[4] != all[8]);
    assert(all[5] != all[0] && all[5] != all[1] && all[5] != all[2] && all[5] != all[3] && all[5]
        != all[6] && all[5] != all[7] && all[5] != all[8]);
    assert(all[3] != all[0] && all[3] != all[1] && all[3] != all[2]);
    let m = stmt(g, node, at).0;
    assert(stmt(g, node, at) == for_loop(g, node, at));
    let any = shape::other(node);
    shape::loops_lead_back(g, node, at, at);
    let (g0, start) = shape::loop_body(g, node, at);
    cfg::lemma_steps_grow(g0, 0, start, any, start, EdgeKind::True);
    let vars = range_vars(node);
    let bind = StmtView::LoopVarBind { vars };
    cfg::lemma_steps_grow(g0, 0, start, bind, start, EdgeKind::True);
    let g1 = if vars.len() > 0 {
        g0.with_stmt(start, bind)
    } else {
        g0
    };
    cfg::lemma_grown_twice(g, g0, g1);
    let (g2, body_end) = if node.has_role("body"@) {
        block(g1, node.role("body"@), start)
    } else {
        (g1, start)
    };
    cfg::lemma_steps_grow(g1, 0, start, any, start, EdgeKind::True);
    if node.has_role("body"@) {
        lemma_block_grows(g1, node.role("body"@), start);
    }
    cfg::lemma_grown_twice(g, g1, g2);
    shape::loops_lead_back(g2, node, at, body_end);
    cfg::lemma_grown_twice(g2, m, h);
    cfg::lemma_grown_twice(g1, g2, h);
    cfg::lemma_grown_twice(g0, g1, h);
    cfg::lemma_grown_keeps(g0, h, 0, any, (at, start, EdgeKind::True));
    cfg::lemma_grown_keeps(m, h, 0, any, (body_end, at, EdgeKind::Loop));
    cfg::lemma_grown_keeps(m, h, 0, any, (at, end, EdgeKind::False));
    if node.has_role("body"@) {
        lemma_block_runs(g1, node.role("body"@), start, h);
    }
    assert(body_loops(node, at, start, body_end, end, h));
}

/// Where a statement ends that is neither a conditional, a loop nor a return: where
/// it began. What follows a return stands in a node that nothing leads to from it.
pub proof fn plain_statements_end_where_they_begin(
    node: SyntaxNode,
    at: NodeId,
    end: NodeId,
    h: GraphView,
)
    requires
        runs(node, at, end, h),
        node.kind@ != "if_statement"@,
        !(node.kind@ == "for_statement"@),
    ensures
        node.kind@ != "return_statement"@ ==> end == at,
        node.kind@ == "return_statement"@ && h.nodes.len() <= NodeId::MAX ==> end != at,
{
    let g = choose|g: GraphView|
        at < g.nodes.len() && end == (#[trigger] stmt(g, node, at)).1 && cfg::grown(
            stmt(g, node, at).0,
            h,
        );
    lemma_kinds_differ();
    let all = all_kinds();
    assert(all[4] != all[0] && all[4] != all[1] && all[4] != all[2] && all[4] != all[3] && all[4]
        != all[5] && all[4] != all[6] && all[4] != all[7] && all[4] != all[8]);
    assert(all[5] != all[0] && all[5] != all[1] && all[5] != all[2] && all[5] != all[3] && all[5]
        != all[6] && all[5] != all[7] && all[5] != all[8]);
    assert(all[3] != all[0] && all[3] != all[1] && all[3] != all[2]);
    cfg::lemma_stmts_grow(g, at, assign_stmts(node));
}

/// A function runs through its body from its entry, and from the end of that to its
/// exit.
pub proof fn functions_run_through_their_body(fn_node: SyntaxNode)
    requires
        fn_node.has_role("body"@),
    ensures
        exists|end: NodeId| #[trigger]
            block_runs(fn_node.role("body"@), 0, end, function(fn_node)) && cfg::joins_nodes(
                function(fn_node),
                end,
                1,
                EdgeKind::Fallthrough,
            ),
{
    let h = function(fn_node);
    let g = shape::opened(fn_node);

    let (m, end) = block(g, fn_node.role("body"@), 0);
    lemma_block_grows(g, fn_node.role("body"@), 0);
    cfg::lemma_steps_grow(m, 0, end, shape::other(fn_node), 1, EdgeKind::Fallthrough);
    lemma_block_runs(g, fn_node.role("body"@), 0, h);
}

/// A function returns an error where its result is the type `error`, or where that
/// is the type of the last of its results.
pub proof fn the_last_result_tells_of_an_error(fn_node: SyntaxNode)
    ensures
        !fn_node.has_role("result"@) ==> !returns_error(fn_node),
        fn_node.has_role("result"@) ==> {
            let result = fn_node.role("result"@);
            &&& result.kind@ == "type_identifier"@ ==> (returns_error(fn_node) <==> text::trimmed(
                result.text@,
            ) == "error"@)
            &&& result.kind@ != "type_identifier"@ && result.kind@ != "parameter_list"@
                ==> !returns_error(fn_node)
            &&& result.kind@ == "parameter_list"@ ==> forall|i: int|
                0 <= i < result.children@.len() && (#[trigger] result.children@[i]).named
                    && result.children@[i].kind@ == "parameter_declaration"@ && (forall|j: int|
                    i < j < result.children@.len() ==> !((#[trigger] result.children@[j]).named
                        && result.children@[j].kind@ == "parameter_declaration"@)) ==> (
                returns_error(fn_node) <==> result.children@[i].has_role("type"@)
                    && result.children@[i].role("type"@).kind@ == "type_identifier"@
                    && text::trimmed(result.children@[i].role("type"@).text@) == "error"@)
        },
{
    reveal_strlit("type_identifier");
    reveal_strlit("parameter_list");
    assert("type_identifier"@.len() != "parameter_list"@.len());
    if fn_node.has_role("result"@) {
        let result = fn_node.role("result"@);
        assert forall|i: int|
            0 <= i < result.children@.len() && (#[trigger] result.children@[i]).named
                && result.children@[i].kind@ == "parameter_declaration"@ && (forall|j: int|
                i < j < result.children@.len() ==> !((#[trigger] result.children@[j]).named
                    && result.children@[j].kind@
                    == "parameter_declaration"@)) implies syntax::last_named_of_kind(
            result.children@,
            "parameter_declaration"@,
        ) == Some(result.children@[i]) by {
            lemma_last_named(result.children@, "parameter_declaration"@, i);
        }
    }
}

proof fn lemma_last_named(nodes: Seq<SyntaxNode>, kind: Seq<char>, i: int)
    requires
        0 <= i < nodes.len(),
        nodes[i].named && nodes[i].kind@ == kind,
        forall|j: int|
            i < j < nodes.len() ==> !((#[trigger] nodes[j]).named && nodes[j].kind@ == kind),
    ensures
        syntax::last_named_of_kind(nodes, kind) == Some(nodes[i]),
    decreases nodes.len(),
{
    if i < nodes.len() - 1 {
        let rest = nodes.drop_last();
        assert(!(nodes[nodes.len() - 1].named && nodes[nodes.len() - 1].kind@ == kind));
        assert(rest[i] == nodes[i]);
        assert forall|j: int| i < j < rest.len() implies !((#[trigger] rest[j]).named
            && rest[j].kind@ == kind) by {
            assert(rest[j] == nodes[j]);
        }
        lemma_last_named(rest, kind, i);
    }
}

/// A loop without a range clause, or with one that has nothing on its left, declares
/// no variables.
pub proof fn other_loops_declare_no_variables(stmt: SyntaxNode)
    ensures
        (forall|i: int|
            0 <= i < stmt.children@.len() ==> !((#[trigger] stmt.children@[i]).named
                && stmt.children@[i].kind@ == "range_clause"@)) ==> range_vars(stmt).len() == 0,
        (forall|i: int|
            0 <= i < stmt.children@.len() ==> !(#[trigger] stmt.children@[i]).has_role("left"@))
            ==> range_vars(stmt).len() == 0,
{
    syntax::the_first_of_a_kind_is_found(stmt.children@, "range_clause"@);
    let i = syntax::named_kind_index(stmt.children@, "range_clause"@) as int;
    if i < stmt.children@.len() {
        assert(stmt.children@[i].named && stmt.children@[i].kind@ == "range_clause"@);
    }
}

} // verus!
