//! A deliberately small, language-agnostic control-flow graph. `Stmt` only
//! models the statement shapes the dataflow rules recognise; everything else
//! lowers to `Stmt::Other`, which keeps control flow and line numbers faithful
//! and contributes no facts.

use vstd::prelude::*;

use crate::text;

verus! {

/// The index of a node in `Cfg::nodes`.
pub type NodeId = usize;

/// The name of a variable, as written in the source.
pub type VarId = String;

/// What stands on the right of an assignment.
#[derive(Debug, Clone)]
pub enum RhsShape {
    /// A bare `nil`/`null` literal.
    NilLiteral,
    /// `x[a:b]`: re-slicing another variable.
    Reslice { of: VarId },
    /// A plain variable reference, `x = y`.
    Var(VarId),
    /// A `+` chain with at least one identifier among its operands.
    Concat { parts: Vec<VarId> },
    /// `&x`: the address of another variable.
    AddressOf { of: VarId },
    /// Anything the lowering does not specifically recognise.
    Unknown,
}

/// What a call names as its callee.
#[derive(Debug, Clone)]
pub enum CallTarget {
    /// `name(...)` or `recv.name(...)`, kept as text.
    Named(String),
    Unknown,
}

/// The comparison a guard makes.
#[derive(Debug, Clone, Copy, PartialEq, Eq, Structural)]
pub enum GuardOp {
    Equal,
    NotEqual,
}

/// What a guard compares its variable with.
#[derive(Debug, Clone, Copy, PartialEq, Eq, Structural)]
pub enum GuardAgainst {
    Nil,
}

/// When the body of a captured closure runs.
#[derive(Debug, Clone, Copy, PartialEq, Eq, Structural)]
pub enum ClosureKind {
    Goroutine,
    Deferred,
}

/// One statement of a node.
#[derive(Debug, Clone)]
pub enum Stmt {
    Assign { lhs: VarId, rhs: RhsShape },
    Return { value: Option<VarId> },
    Call { target: CallTarget, args: Vec<VarId>, assigned_to: Option<VarId> },
    Guard { var: VarId, op: GuardOp, against: GuardAgainst },
    ClosureCapture { captured: Vec<VarId>, kind: ClosureKind },
    /// The variables a `for` clause declares anew for its loop.
    LoopVarBind { vars: Vec<VarId> },
    /// Anything not recognised above, with its raw source text, so that a rule
    /// can still ask whether a name is mentioned at all.
    Other(String),
}

/// A basic block: its statements and the line it starts on.
#[derive(Debug, Clone)]
pub struct CfgNode<S> {
    pub stmts: Vec<S>,
    pub source_line: u32,
}

/// Why control passes from one node to the next.
#[derive(Debug, Clone, Copy, PartialEq, Eq, Structural)]
pub enum EdgeKind {
    /// Straight-line flow, or an unconditional loop back-edge.
    Fallthrough,
    /// The true arm of a conditional.
    True,
    /// The false arm of a conditional.
    False,
    /// A loop's back-edge.
    Loop,
}

/// An edge: its source, its target and why it is taken.
pub type Edge = (NodeId, NodeId, EdgeKind);

/// A function's control-flow graph.
#[derive(Debug, Clone)]
pub struct Cfg<S> {
    pub entry: NodeId,
    pub exit: NodeId,
    pub nodes: Vec<CfgNode<S>>,
    pub edges: Vec<Edge>,
}

/// The sources of the edges into `node`, in edge order.
pub open spec fn preds_of(edges: Seq<Edge>, node: NodeId) -> Seq<NodeId>
    decreases edges.len(),
{
    if edges.len() == 0 {
        Seq::empty()
    } else if edges.last().1 == node {
        preds_of(edges.drop_last(), node).push(edges.last().0)
    } else {
        preds_of(edges.drop_last(), node)
    }
}

/// The targets of the edges out of `node`, in edge order.
pub open spec fn succs_of(edges: Seq<Edge>, node: NodeId) -> Seq<NodeId>
    decreases edges.len(),
{
    if edges.len() == 0 {
        Seq::empty()
    } else if edges.last().0 == node {
        succs_of(edges.drop_last(), node).push(edges.last().1)
    } else {
        succs_of(edges.drop_last(), node)
    }
}

/// Every edge joins two of the first `count` nodes.
pub open spec fn edges_within(edges: Seq<Edge>, count: nat) -> bool {
    forall|i: int| 0 <= i < edges.len() ==> (#[trigger] edges[i]).0 < count && edges[i].1 < count
}

impl<S> Cfg<S> {
    /// Some edge leads from `from` to `to`.
    pub open spec fn has_edge(&self, from: NodeId, to: NodeId) -> bool {
        exists|i: int|
            0 <= i < self.edges@.len() && (#[trigger] self.edges@[i]).0 == from
                && self.edges@[i].1 == to
    }

    /// `walk` is a non-empty run of nodes, each with an edge to the next.
    pub open spec fn is_walk(&self, walk: Seq<NodeId>) -> bool {
        &&& walk.len() > 0
        &&& forall|k: int| 0 <= k < walk.len() ==> #[trigger] walk[k] < self.nodes@.len()
        &&& forall|k: int|
            0 <= k < walk.len() - 1 ==> self.has_edge(#[trigger] walk[k], walk[k + 1])
    }

    /// Every edge joins two nodes of the graph.
    pub open spec fn well_formed(&self) -> bool {
        edges_within(self.edges@, self.nodes@.len())
    }

    /// The sources of the edges into `node`, in edge order.
    pub open spec fn preds(&self, node: NodeId) -> Seq<NodeId> {
        preds_of(self.edges@, node)
    }

    /// The targets of the edges out of `node`, in edge order.
    pub open spec fn succs(&self, node: NodeId) -> Seq<NodeId> {
        succs_of(self.edges@, node)
    }

    /// The nodes with an edge into `node`, in edge order.
    pub fn predecessors(&self, node: NodeId) -> (found: Vec<NodeId>)
        ensures
            found@ == self.preds(node),
    {
        let mut found: Vec<NodeId> = Vec::new();
        let mut i: usize = 0;
        while i < self.edges.len()
            invariant
                0 <= i <= self.edges@.len(),
                found@ == preds_of(self.edges@.take(i as int), node),
            decreases self.edges.len() - i,
        {
            proof {
                assert(self.edges@.take(i + 1).drop_last() =~= self.edges@.take(i as int));
            }
            let edge: Edge = self.edges[i];
            if edge.1 == node {
                found.push(edge.0);
            }
            i += 1;
        }
        proof {
            assert(self.edges@.take(self.edges@.len() as int) =~= self.edges@);
        }
        found
    }

    /// The nodes that `node` has an edge to, in edge order.
    pub fn successors(&self, node: NodeId) -> (found: Vec<NodeId>)
        ensures
            found@ == self.succs(node),
    {
        let mut found: Vec<NodeId> = Vec::new();
        let mut i: usize = 0;
        while i < self.edges.len()
            invariant
                0 <= i <= self.edges@.len(),
                found@ == succs_of(self.edges@.take(i as int), node),
            decreases self.edges.len() - i,
        {
            proof {
                assert(self.edges@.take(i + 1).drop_last() =~= self.edges@.take(i as int));
            }
            let edge: Edge = self.edges[i];
            if edge.0 == node {
                found.push(edge.1);
            }
            i += 1;
        }
        proof {
            assert(self.edges@.take(self.edges@.len() as int) =~= self.edges@);
        }
        found
    }

    /// Appends an empty node that starts on `source_line` and returns its id.
    /// Callers fill in `stmts` and wire `edges` directly.
    pub fn push_node(&mut self, source_line: u32) -> (id: NodeId)
        ensures
            id == old(self).nodes@.len(),
            final(self).nodes@.len() == old(self).nodes@.len() + 1,
            final(self).nodes@.take(id as int) == old(self).nodes@,
            final(self).nodes@[id as int].stmts@ == Seq::<S>::empty(),
            final(self).nodes@[id as int].source_line == source_line,
            final(self).edges == old(self).edges,
            final(self).entry == old(self).entry,
            final(self).exit == old(self).exit,
    {
        let id: NodeId = self.nodes.len();
        self.nodes.push(CfgNode { stmts: Vec::new(), source_line });
        proof {
            assert(self.nodes@.take(id as int) =~= old(self).nodes@);
        }
        id
    }

    /// A graph with no nodes and no edges.
    pub fn new_empty() -> (cfg: Self)
        ensures
            cfg.entry == 0,
            cfg.exit == 0,
            cfg.nodes@ == Seq::<CfgNode<S>>::empty(),
            cfg.edges@ == Seq::<Edge>::empty(),
    {
        Cfg { entry: 0, exit: 0, nodes: Vec::new(), edges: Vec::new() }
    }
}

/// A node is among the sources of the edges into another exactly when an edge
/// joins the two.
pub proof fn lemma_preds_contains(edges: Seq<Edge>, from: NodeId, to: NodeId)
    ensures
        preds_of(edges, to).contains(from) <==> exists|i: int|
            0 <= i < edges.len() && (#[trigger] edges[i]).0 == from && edges[i].1 == to,
    decreases edges.len(),
{
    if edges.len() > 0 {
        let rest = edges.drop_last();
        let last = edges.last();
        lemma_preds_contains(rest, from, to);
        if exists|i: int| 0 <= i < rest.len() && (#[trigger] rest[i]).0 == from && rest[i].1 == to {
            let i = choose|i: int|
                0 <= i < rest.len() && (#[trigger] rest[i]).0 == from && rest[i].1 == to;
            assert(edges[i].0 == from && edges[i].1 == to);
        }
        if exists|i: int| 0 <= i < edges.len() && (#[trigger] edges[i]).0 == from && edges[i].1 == to {
            let i = choose|i: int|
                0 <= i < edges.len() && (#[trigger] edges[i]).0 == from && edges[i].1 == to;
            if i < rest.len() {
                assert(rest[i].0 == from && rest[i].1 == to);
            }
        }
        if last.1 == to {
            crate::text::lemma_push_contains(preds_of(rest, to), last.0, from);
            assert(edges[edges.len() - 1] == last);
        }
    }
}

/// A node is among the targets of the edges out of another exactly when an
/// edge joins the two.
pub proof fn lemma_succs_contains(edges: Seq<Edge>, from: NodeId, to: NodeId)
    ensures
        succs_of(edges, from).contains(to) <==> exists|i: int|
            0 <= i < edges.len() && (#[trigger] edges[i]).0 == from && edges[i].1 == to,
    decreases edges.len(),
{
    if edges.len() > 0 {
        let rest = edges.drop_last();
        let last = edges.last();
        lemma_succs_contains(rest, from, to);
        if exists|i: int| 0 <= i < rest.len() && (#[trigger] rest[i]).0 == from && rest[i].1 == to {
            let i = choose|i: int|
                0 <= i < rest.len() && (#[trigger] rest[i]).0 == from && rest[i].1 == to;
            assert(edges[i].0 == from && edges[i].1 == to);
        }
        if exists|i: int| 0 <= i < edges.len() && (#[trigger] edges[i]).0 == from && edges[i].1 == to {
            let i = choose|i: int|
                0 <= i < edges.len() && (#[trigger] edges[i]).0 == from && edges[i].1 == to;
            if i < rest.len() {
                assert(rest[i].0 == from && rest[i].1 == to);
            }
        }
        if last.0 == from {
            crate::text::lemma_push_contains(succs_of(rest, from), last.1, to);
            assert(edges[edges.len() - 1] == last);
        }
    }
}

/// One node precedes another exactly when the other succeeds it.
pub proof fn preds_and_succs_are_dual(edges: Seq<Edge>, from: NodeId, to: NodeId)
    ensures
        preds_of(edges, to).contains(from) <==> succs_of(edges, from).contains(to),
{
    lemma_preds_contains(edges, from, to);
    lemma_succs_contains(edges, from, to);
}

/// How often a node is in a list.
pub open spec fn times_in(nodes: Seq<NodeId>, node: NodeId) -> nat
    decreases nodes.len(),
{
    if nodes.len() == 0 {
        0
    } else {
        times_in(nodes.drop_last(), node) + if nodes.last() == node {
            1nat
        } else {
            0
        }
    }
}

/// Edges between two nodes count as often among the predecessors of the one as
/// among the successors of the other.
pub proof fn edges_count_alike(edges: Seq<Edge>, from: NodeId, to: NodeId)
    ensures
        times_in(preds_of(edges, to), from) == times_in(succs_of(edges, from), to),
    decreases edges.len(),
{
    if edges.len() > 0 {
        let rest = edges.drop_last();
        edges_count_alike(rest, from, to);
        let p = preds_of(rest, to);
        let s = succs_of(rest, from);
        assert(p.push(edges.last().0).drop_last() =~= p);
        assert(s.push(edges.last().1).drop_last() =~= s);
    }
}

/// What a `RhsShape` says.
pub enum RhsView {
    NilLiteral,
    Reslice { of: Seq<char> },
    Var(Seq<char>),
    Concat { parts: Seq<Seq<char>> },
    AddressOf { of: Seq<char> },
    Unknown,
}

impl View for RhsShape {
    type V = RhsView;

    open spec fn view(&self) -> RhsView {
        match self {
            RhsShape::NilLiteral => RhsView::NilLiteral,
            RhsShape::Reslice { of } => RhsView::Reslice { of: of@ },
            RhsShape::Var(name) => RhsView::Var(name@),
            RhsShape::Concat { parts } => RhsView::Concat { parts: text::views(parts@) },
            RhsShape::AddressOf { of } => RhsView::AddressOf { of: of@ },
            RhsShape::Unknown => RhsView::Unknown,
        }
    }
}

/// What a `CallTarget` says.
pub enum CallTargetView {
    Named(Seq<char>),
    Unknown,
}

impl View for CallTarget {
    type V = CallTargetView;

    open spec fn view(&self) -> CallTargetView {
        match self {
            CallTarget::Named(name) => CallTargetView::Named(name@),
            CallTarget::Unknown => CallTargetView::Unknown,
        }
    }
}

/// What a `Stmt` says.
pub enum StmtView {
    Assign { lhs: Seq<char>, rhs: RhsView },
    Return { value: Option<Seq<char>> },
    Call { target: CallTargetView, args: Seq<Seq<char>>, assigned_to: Option<Seq<char>> },
    Guard { var: Seq<char>, op: GuardOp, against: GuardAgainst },
    ClosureCapture { captured: Seq<Seq<char>>, kind: ClosureKind },
    LoopVarBind { vars: Seq<Seq<char>> },
    Other(Seq<char>),
}

impl View for Stmt {
    type V = StmtView;

    open spec fn view(&self) -> StmtView {
        match self {
            Stmt::Assign { lhs, rhs } => StmtView::Assign { lhs: lhs@, rhs: rhs@ },
            Stmt::Return { value } => StmtView::Return { value: text::optional(*value) },
            Stmt::Call { target, args, assigned_to } => StmtView::Call {
                target: target@,
                args: text::views(args@),
                assigned_to: text::optional(*assigned_to),
            },
            Stmt::Guard { var, op, against } => StmtView::Guard {
                var: var@,
                op: *op,
                against: *against,
            },
            Stmt::ClosureCapture { captured, kind } => StmtView::ClosureCapture {
                captured: text::views(captured@),
                kind: *kind,
            },
            Stmt::LoopVarBind { vars } => StmtView::LoopVarBind { vars: text::views(vars@) },
            Stmt::Other(source) => StmtView::Other(source@),
        }
    }
}

/// What a node of a graph of statements says.
pub struct NodeView {
    pub stmts: Seq<StmtView>,
    pub source_line: u32,
}

impl View for CfgNode<Stmt> {
    type V = NodeView;

    open spec fn view(&self) -> NodeView {
        NodeView { stmts: text::views(self.stmts@), source_line: self.source_line }
    }
}

/// What a graph of statements says.
pub struct GraphView {
    pub entry: NodeId,
    pub exit: NodeId,
    pub nodes: Seq<NodeView>,
    pub edges: Seq<Edge>,
}

impl View for Cfg<Stmt> {
    type V = GraphView;

    open spec fn view(&self) -> GraphView {
        GraphView {
            entry: self.entry,
            exit: self.exit,
            nodes: text::views(self.nodes@),
            edges: self.edges@,
        }
    }
}

impl GraphView {
    /// The graph with an empty node more.
    pub open spec fn with_node(self, source_line: u32) -> GraphView {
        GraphView {
            nodes: self.nodes.push(NodeView { stmts: Seq::empty(), source_line }),
            ..self
        }
    }

    /// The graph with a statement more at the end of `node`.
    pub open spec fn with_stmt(self, node: NodeId, stmt: StmtView) -> GraphView {
        let old = self.nodes[node as int];
        GraphView {
            nodes: self.nodes.update(
                node as int,
                NodeView { stmts: old.stmts.push(stmt), source_line: old.source_line },
            ),
            ..self
        }
    }

    /// The graph with statements more at the end of `node`.
    pub open spec fn with_stmts(self, node: NodeId, stmts: Seq<StmtView>) -> GraphView
        decreases stmts.len(),
    {
        if stmts.len() == 0 {
            self
        } else {
            self.with_stmts(node, stmts.drop_last()).with_stmt(node, stmts.last())
        }
    }

    /// The graph with an edge more.
    pub open spec fn with_edge(self, from: NodeId, to: NodeId, kind: EdgeKind) -> GraphView {
        GraphView { edges: self.edges.push((from, to, kind)), ..self }
    }

    /// The id that the next node gets.
    pub open spec fn next_id(self) -> NodeId {
        self.nodes.len() as NodeId
    }
}

impl Cfg<Stmt> {
    /// The graph is well formed, its exit is one of its nodes and so is
    /// `current`.
    pub open spec fn open_at(&self, current: NodeId) -> bool {
        self.well_formed() && self.exit < self.nodes@.len() && current < self.nodes@.len()
    }

    /// Appends an empty node and returns its id.
    pub fn add_node(&mut self, source_line: u32) -> (id: NodeId)
        requires
            old(self).well_formed(),
        ensures
            final(self)@ == old(self)@.with_node(source_line),
            id == old(self)@.next_id(),
            id == old(self).nodes@.len(),
            final(self).nodes@.len() == old(self).nodes@.len() + 1,
            final(self).well_formed(),
            final(self).exit == old(self).exit,
    {
        let ghost before = self.nodes@;
        let id: NodeId = self.push_node(source_line);
        proof {
            assert forall|i: int| 0 <= i < before.len() implies self.nodes@[i] == before[i] by {
                assert(self.nodes@.take(id as int)[i] == before[i]);
            }
            assert(text::views(self.nodes@[id as int].stmts@) =~= Seq::<StmtView>::empty());
            assert(self@.nodes =~= old(self)@.with_node(source_line).nodes);
        }
        id
    }

    /// Appends a statement to a node.
    pub fn add_stmt(&mut self, node: NodeId, stmt: Stmt)
        requires
            old(self).well_formed(),
            node < old(self).nodes@.len(),
        ensures
            final(self)@ == old(self)@.with_stmt(node, stmt@),
            final(self).nodes@.len() == old(self).nodes@.len(),
            final(self).well_formed(),
            final(self).exit == old(self).exit,
    {
        let ghost before = self.nodes@;
        self.nodes[node].stmts.push(stmt);
        proof {
            text::lemma_views_push(before[node as int].stmts@, stmt);
            assert(self@.nodes =~= old(self)@.with_stmt(node, stmt@).nodes);
        }
    }

    /// Appends an edge.
    pub fn add_edge(&mut self, from: NodeId, to: NodeId, kind: EdgeKind)
        requires
            old(self).well_formed(),
            from < old(self).nodes@.len(),
            to < old(self).nodes@.len(),
        ensures
            final(self)@ == old(self)@.with_edge(from, to, kind),
            final(self).nodes@.len() == old(self).nodes@.len(),
            final(self).well_formed(),
            final(self).exit == old(self).exit,
    {
        self.edges.push((from, to, kind));
    }

    /// Appends statements to a node.
    pub fn add_stmts(&mut self, node: NodeId, stmts: Vec<Stmt>)
        requires
            old(self).well_formed(),
            node < old(self).nodes@.len(),
        ensures
            final(self)@ == old(self)@.with_stmts(node, text::views(stmts@)),
            final(self).nodes@.len() == old(self).nodes@.len(),
            final(self).well_formed(),
            final(self).exit == old(self).exit,
    {
        let ghost start = self@;
        let ghost all = text::views(stmts@);
        let mut rest: Vec<Stmt> = stmts;
        let mut queue: Vec<Stmt> = Vec::new();
        let ghost total = rest@;
        while rest.len() > 0
            invariant
                total.len() == rest@.len() + queue@.len(),
                rest@ == total.take(rest@.len() as int),
                forall|k: int|
                    0 <= k < queue@.len() ==> #[trigger] queue@[k] == total[total.len() - 1 - k],
            decreases rest@.len(),
        {
            if let Some(stmt) = rest.pop() {
                queue.push(stmt);
            }
        }
        while queue.len() > 0
            invariant
                self.well_formed(),
                node < self.nodes@.len(),
                self.nodes@.len() == old(self).nodes@.len(),
                self.exit == old(self).exit,
                all == text::views(total),
                queue@.len() <= total.len(),
                forall|k: int|
                    0 <= k < queue@.len() ==> #[trigger] queue@[k] == total[total.len() - 1 - k],
                self@ == start.with_stmts(node, all.take(total.len() - queue@.len())),
            decreases queue@.len(),
        {
            let ghost done = total.len() - queue@.len();
            if let Some(stmt) = queue.pop() {
                proof {
                    assert(all.take(done + 1).drop_last() =~= all.take(done));
                    assert(all.take(done + 1).last() == stmt@);
                }
                self.add_stmt(node, stmt);
            }
        }
        proof {
            assert(all.take(total.len() as int) =~= all);
        }
    }
}

/// `h` is `g` with something more: the nodes of `g` keep their places, their lines
/// and their statements, and its edges stay.
pub open spec fn grown(g: GraphView, h: GraphView) -> bool {
    &&& h.entry == g.entry
    &&& h.exit == g.exit
    &&& g.nodes.len() <= h.nodes.len()
    &&& forall|n: int|
        0 <= n < g.nodes.len() ==> (#[trigger] h.nodes[n]).source_line == g.nodes[n].source_line
            && kept(g.nodes[n].stmts, h.nodes[n].stmts)
    &&& g.edges.len() <= h.edges.len()
    &&& forall|e: int| 0 <= e < g.edges.len() ==> #[trigger] h.edges[e] == g.edges[e]
}

/// The statements of `a` stand at the front of those of `b`.
pub open spec fn kept(a: Seq<StmtView>, b: Seq<StmtView>) -> bool {
    &&& a.len() <= b.len()
    &&& forall|k: int| 0 <= k < a.len() ==> #[trigger] b[k] == a[k]
}

/// A node of the graph holds the statement.
pub open spec fn holds(g: GraphView, stmt: StmtView) -> bool {
    exists|n: int| #[trigger] holds_at(g, n, stmt)
}

/// A node holds the statement.
pub open spec fn holds_at(g: GraphView, n: int, stmt: StmtView) -> bool {
    0 <= n < g.nodes.len() && exists|k: int|
        0 <= k < g.nodes[n].stmts.len() && #[trigger] g.nodes[n].stmts[k] == stmt
}

/// The graph has the edge.
pub open spec fn joins_nodes(g: GraphView, from: NodeId, to: NodeId, kind: EdgeKind) -> bool {
    exists|e: int| 0 <= e < g.edges.len() && #[trigger] g.edges[e] == (from, to, kind)
}

pub proof fn lemma_grown_twice(a: GraphView, b: GraphView, c: GraphView)
    requires
        grown(a, b),
        grown(b, c),
    ensures
        grown(a, c),
{
    assert forall|n: int| 0 <= n < a.nodes.len() implies (#[trigger] c.nodes[n]).source_line
        == a.nodes[n].source_line && kept(a.nodes[n].stmts, c.nodes[n].stmts) by {
        assert(b.nodes[n].source_line == a.nodes[n].source_line);
        let (x, y, z) = (a.nodes[n].stmts, b.nodes[n].stmts, c.nodes[n].stmts);
        assert forall|k: int| 0 <= k < x.len() implies #[trigger] z[k] == x[k] by {
            assert(y[k] == x[k]);
        }
    }
    assert forall|e: int| 0 <= e < a.edges.len() implies #[trigger] c.edges[e] == a.edges[e] by {
        assert(b.edges[e] == a.edges[e]);
    }
}

/// What a graph holds and joins, every graph that has grown from it does.
pub proof fn lemma_grown_keeps(
    g: GraphView,
    h: GraphView,
    n: int,
    stmt: StmtView,
    edge: (NodeId, NodeId, EdgeKind),
)
    requires
        grown(g, h),
    ensures
        holds_at(g, n, stmt) ==> holds_at(h, n, stmt),
        holds(g, stmt) ==> holds(h, stmt),
        joins_nodes(g, edge.0, edge.1, edge.2) ==> joins_nodes(h, edge.0, edge.1, edge.2),
{
    assert forall|m: int| #[trigger] holds_at(g, m, stmt) implies holds_at(
        h,
        m,
        stmt,
    ) by {
        let k = choose|k: int|
            0 <= k < g.nodes[m].stmts.len() && #[trigger] g.nodes[m].stmts[k] == stmt;
        assert(h.nodes[m].source_line == g.nodes[m].source_line);
        assert(h.nodes[m].stmts[k] == stmt);
    }
    if joins_nodes(g, edge.0, edge.1, edge.2) {
        let e = choose|e: int| 0 <= e < g.edges.len() && #[trigger] g.edges[e] == edge;
        assert(h.edges[e] == edge);
    }
}

pub proof fn lemma_steps_grow(g: GraphView, line: u32, n: NodeId, stmt: StmtView, to: NodeId, kind: EdgeKind)
    ensures
        grown(g, g),
        grown(g, g.with_node(line)),
        g.with_node(line).nodes.len() == g.nodes.len() + 1,
        (g.next_id() as int) < g.nodes.len() + 1,
        grown(g, g.with_edge(n, to, kind)),
        joins_nodes(g.with_edge(n, to, kind), n, to, kind),
        n < g.nodes.len() ==> grown(g, g.with_stmt(n, stmt)) && holds_at(
            g.with_stmt(n, stmt),
            n as int,
            stmt,
        ) && holds(g.with_stmt(n, stmt), stmt),
{
    let e = g.with_edge(n, to, kind);
    assert(e.edges[g.edges.len() as int] == (n, to, kind));
    if n < g.nodes.len() {
        let h = g.with_stmt(n, stmt);
        assert(h.nodes[n as int].stmts[g.nodes[n as int].stmts.len() as int] == stmt);
        assert(holds_at(h, n as int, stmt));
    }
}

pub proof fn lemma_stmts_grow(g: GraphView, n: NodeId, stmts: Seq<StmtView>)
    requires
        n < g.nodes.len(),
    ensures
        grown(g, g.with_stmts(n, stmts)),
        g.with_stmts(n, stmts).nodes.len() == g.nodes.len(),
        g.with_stmts(n, stmts).nodes[n as int].stmts == g.nodes[n as int].stmts + stmts,
        forall|k: int|
            0 <= k < stmts.len() ==> holds_at(
                g.with_stmts(n, stmts),
                n as int,
                #[trigger] stmts[k],
            ) && holds(g.with_stmts(n, stmts), stmts[k]),
    decreases stmts.len(),
{
    let h = g.with_stmts(n, stmts);
    if stmts.len() == 0 {
        lemma_steps_grow(g, 0, n, StmtView::Return { value: None }, n, EdgeKind::True);
        assert(g.nodes[n as int].stmts + stmts =~= g.nodes[n as int].stmts);
    } else {
        let before = g.with_stmts(n, stmts.drop_last());
        lemma_stmts_grow(g, n, stmts.drop_last());
        lemma_steps_grow(before, 0, n, stmts.last(), n, EdgeKind::True);
        lemma_grown_twice(g, before, h);
        assert(h.nodes[n as int].stmts =~= g.nodes[n as int].stmts + stmts);
    }
    assert forall|k: int| 0 <= k < stmts.len() implies holds_at(h, n as int, #[trigger] stmts[k])
        && holds(h, stmts[k]) by {
        assert(h.nodes[n as int].stmts[g.nodes[n as int].stmts.len() + k] == stmts[k]);
        assert(holds_at(h, n as int, stmts[k]));
    }
}

} // verus!
