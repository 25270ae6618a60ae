//! A declarative call-ordering engine: has some earlier call happened, on this
//! path, without an intervening call that would make it safe? One flag per
//! path, set by an `after` call, cleared by an `unless` call, and checked at a
//! `before` call or at every return. No variable or receiver is tracked.

use vstd::prelude::*;
use vstd::std_specs::cmp::PartialEqSpecImpl;

use crate::dataflow::cfg::{CallTarget, Cfg, CfgNode, NodeId, Stmt};
use crate::dataflow::lattice::Lattice;
use crate::dataflow::solver;
use crate::dataflow::taint;
use crate::dataflow::taint::NamePattern;
use crate::text;

verus! {

/// A call-ordering rule.
#[derive(Debug, Clone)]
pub struct CallOrderSpec {
    pub rule_id: String,
    /// A call matching one of these sets the flag.
    pub after: Vec<NamePattern>,
    /// A call matching one of these clears the flag, even where it matches
    /// `after` too.
    pub unless: Vec<NamePattern>,
    /// A call matching one of these, reached with the flag set, is a hit.
    pub before: Vec<NamePattern>,
    /// Whether every return reached with the flag set is a hit.
    pub check_before_return: bool,
}

/// A call or a return reached with the flag set.
#[derive(Debug, Clone, PartialEq, Eq)]
pub struct CallOrderHit {
    pub trigger_call: String,
    pub node: NodeId,
    pub source_line: u32,
}

/// What a `CallOrderHit` says.
pub struct CallOrderHitView {
    pub trigger_call: Seq<char>,
    pub node: NodeId,
    pub source_line: u32,
}

impl View for CallOrderHit {
    type V = CallOrderHitView;

    open spec fn view(&self) -> CallOrderHitView {
        CallOrderHitView {
            trigger_call: self.trigger_call@,
            node: self.node,
            source_line: self.source_line,
        }
    }
}

/// Whether the flag is set.
#[derive(Debug, Clone, Copy)]
pub struct Pending(pub bool);

impl PartialEq for Pending {
    fn eq(&self, other: &Self) -> (r: bool) {
        self.0 == other.0
    }
}

impl PartialEqSpecImpl for Pending {
    open spec fn obeys_eq_spec() -> bool {
        true
    }

    open spec fn eq_spec(&self, other: &Self) -> bool {
        self.0 == other.0
    }
}

impl Lattice for Pending {
    open spec fn valid(&self) -> bool {
        true
    }

    open spec fn is_bottom(&self) -> bool {
        !self.0
    }

    open spec fn below(&self, other: &Self) -> bool {
        self.0 ==> other.0
    }

    open spec fn joins(&self, other: &Self, merged: &Self) -> bool {
        merged.0 == (self.0 || other.0)
    }

    open spec fn rank(&self) -> nat {
        if self.0 {
            1
        } else {
            0
        }
    }

    fn bottom() -> (fact: Self) {
        Pending(false)
    }

    fn join(&self, other: &Self) -> (merged: Self) {
        Pending(self.0 || other.0)
    }

    proof fn below_reflexive(a: Self) {
    }

    proof fn below_transitive(a: Self, b: Self, c: Self) {
    }

    proof fn eq_is_mutual_below(a: Self, b: Self) {
    }

    proof fn bottom_is_least(a: Self, b: Self) {
    }

    proof fn join_is_monotone(a: Self, b: Self, m: Self, a2: Self, b2: Self, m2: Self) {
    }

    proof fn rank_climbs(a: Self, b: Self) {
    }
}

/// The flag after a statement, given the flag before it.
pub open spec fn pending_flow(spec: CallOrderSpec, pending: bool, stmt: Stmt) -> bool {
    match stmt {
        Stmt::Call { target: CallTarget::Named(name), args, assigned_to } => {
            if taint::any_accepts(spec.unless@, name@) {
                false
            } else {
                pending || taint::any_accepts(spec.after@, name@)
            }
        },
        _ => pending,
    }
}

/// The flag after statements, given the flag before them.
pub open spec fn pending_after(spec: CallOrderSpec, pending: bool, stmts: Seq<Stmt>) -> bool
    decreases stmts.len(),
{
    if stmts.len() == 0 {
        pending
    } else {
        pending_flow(spec, pending_after(spec, pending, stmts.drop_last()), stmts.last())
    }
}

/// The flag at the end of a walk that starts with the flag clear.
pub open spec fn pending_along(spec: CallOrderSpec, cfg: Cfg<Stmt>, walk: Seq<NodeId>) -> bool
    decreases walk.len(),
{
    if walk.len() == 0 {
        false
    } else {
        pending_after(
            spec,
            pending_along(spec, cfg, walk.drop_last()),
            cfg.nodes@[walk.last() as int].stmts@,
        )
    }
}

/// `walk` ends in `node` with the flag set.
pub open spec fn leaves_pending(
    spec: CallOrderSpec,
    cfg: Cfg<Stmt>,
    walk: Seq<NodeId>,
    node: NodeId,
) -> bool {
    cfg.is_walk(walk) && walk.last() == node && pending_along(spec, cfg, walk)
}

/// Some walk reaches `node` with the flag set on entry.
pub open spec fn pending_at_entry(spec: CallOrderSpec, cfg: Cfg<Stmt>, node: NodeId) -> bool {
    exists|from: NodeId, walk: Seq<NodeId>|
        cfg.has_edge(from, node) && #[trigger] leaves_pending(spec, cfg, walk, from)
}

/// The hits on one statement, given the flag before it.
pub open spec fn stmt_hits(
    spec: CallOrderSpec,
    pending: bool,
    stmt: Stmt,
    node: NodeId,
    line: u32,
) -> Seq<CallOrderHitView> {
    match stmt {
        Stmt::Call { target: CallTarget::Named(name), args, assigned_to } => if pending
            && taint::any_accepts(spec.before@, name@) {
            seq![CallOrderHitView { trigger_call: name@, node, source_line: line }]
        } else {
            Seq::empty()
        },
        Stmt::Return { value } => if pending && spec.check_before_return {
            seq![CallOrderHitView { trigger_call: "return"@, node, source_line: line }]
        } else {
            Seq::empty()
        },
        _ => Seq::empty(),
    }
}

/// The hits on statements, given the flag before the first.
pub open spec fn run_hits(
    spec: CallOrderSpec,
    pending: bool,
    stmts: Seq<Stmt>,
    node: NodeId,
    line: u32,
) -> Seq<CallOrderHitView>
    decreases stmts.len(),
{
    if stmts.len() == 0 {
        Seq::empty()
    } else {
        run_hits(spec, pending, stmts.drop_last(), node, line) + stmt_hits(
            spec,
            pending_after(spec, pending, stmts.drop_last()),
            stmts.last(),
            node,
            line,
        )
    }
}

/// The hits in the first `count` nodes of a graph.
pub open spec fn hits_in(spec: CallOrderSpec, cfg: Cfg<Stmt>, count: nat) -> Seq<CallOrderHitView>
    decreases count,
{
    if count == 0 {
        Seq::empty()
    } else {
        let node = (count - 1) as NodeId;
        hits_in(spec, cfg, (count - 1) as nat) + run_hits(
            spec,
            pending_at_entry(spec, cfg, node),
            cfg.nodes@[node as int].stmts@,
            node,
            cfg.nodes@[node as int].source_line,
        )
    }
}

/// The flag after statements is the same as before them, or does not depend on
/// it.
proof fn lemma_pending_after_additive(spec: CallOrderSpec, a: bool, b: bool, stmts: Seq<Stmt>)
    ensures
        pending_after(spec, a || b, stmts) == (pending_after(spec, a, stmts) || pending_after(
            spec,
            b,
            stmts,
        )),
    decreases stmts.len(),
{
    if stmts.len() > 0 {
        lemma_pending_after_additive(spec, a, b, stmts.drop_last());
    }
}

/// A merge of flags is set exactly when one of them is.
proof fn lemma_folds_is_any(facts: Seq<Pending>, preds: Seq<NodeId>, fact: Pending)
    requires
        solver::folds(facts, preds, fact),
    ensures
        fact.0 <==> exists|k: int| 0 <= k < preds.len() && facts[(#[trigger] preds[k]) as int].0,
{
    let steps = choose|steps: Seq<Pending>| #[trigger]
        solver::merges(facts, preds, steps) && steps.last() == fact;
    lemma_merges_is_any(facts, preds, steps, preds.len() as int);
}

proof fn lemma_merges_is_any(facts: Seq<Pending>, preds: Seq<NodeId>, steps: Seq<Pending>, n: int)
    requires
        solver::merges(facts, preds, steps),
        0 <= n <= preds.len(),
    ensures
        steps[n].0 <==> exists|k: int| 0 <= k < n && facts[(#[trigger] preds[k]) as int].0,
    decreases n,
{
    if n > 0 {
        lemma_merges_is_any(facts, preds, steps, n - 1);
        assert(steps[n - 1].joins(&facts[preds[n - 1] as int], &steps[n]));
    }
}

/// The flag after statements, given the flag before them.
fn run_stmts(spec: &CallOrderSpec, pending: bool, stmts: &Vec<Stmt>) -> (after: bool)
    ensures
        after == pending_after(*spec, pending, stmts@),
{
    let mut now: bool = pending;
    let mut k: usize = 0;
    while k < stmts.len()
        invariant
            0 <= k <= stmts@.len(),
            now == pending_after(*spec, pending, stmts@.take(k as int)),
        decreases stmts.len() - k,
    {
        proof {
            assert(stmts@.take(k + 1).drop_last() =~= stmts@.take(k as int));
        }
        now = apply(spec, now, &stmts[k]);
        k += 1;
    }
    proof {
        assert(stmts@.take(stmts@.len() as int) =~= stmts@);
    }
    now
}

/// The flag after a statement, given the flag before it.
fn apply(spec: &CallOrderSpec, pending: bool, stmt: &Stmt) -> (after: bool)
    ensures
        after == pending_flow(*spec, pending, *stmt),
{
    match stmt {
        Stmt::Call { target: CallTarget::Named(name), args: _, assigned_to: _ } => {
            if taint::any_matches(&spec.unless, name.as_str()) {
                false
            } else if taint::any_matches(&spec.after, name.as_str()) {
                true
            } else {
                pending
            }
        },
        _ => pending,
    }
}

/// A walk leaves the flag set only where a fixpoint has it set.
proof fn lemma_walk_within<T: Fn(NodeId, &CfgNode<Stmt>, &Pending) -> Pending>(
    spec: CallOrderSpec,
    cfg: &Cfg<Stmt>,
    transfer: T,
    facts: Seq<Pending>,
    walk: Seq<NodeId>,
)
    requires
        cfg.well_formed(),
        solver::is_fixpoint(cfg, transfer, facts),
        forall|i: NodeId, f: Pending, r: Pending| #[trigger]
            call_ensures(transfer, (i, &cfg.nodes@[i as int], &f), r) ==> r.0 == pending_after(
                spec,
                f.0,
                cfg.nodes@[i as int].stmts@,
            ),
        cfg.is_walk(walk),
        pending_along(spec, *cfg, walk),
    ensures
        facts[walk.last() as int].0,
    decreases walk.len(),
{
    let node = walk.last();
    let stmts = cfg.nodes@[node as int].stmts@;
    assert(walk[walk.len() - 1] == node);
    assert(solver::yields(cfg, transfer, facts, node, facts[node as int]));
    let fact = facts[node as int];
    let (before, after) = choose|before: Pending, after: Pending|
        #![trigger solver::folds(facts, cfg.preds(node), before), after.below(&fact)]
        {
            &&& solver::folds(facts, cfg.preds(node), before)
            &&& call_ensures(transfer, (node, &cfg.nodes@[node as int], &before), after)
            &&& after.valid()
            &&& after.below(&fact)
            &&& fact.below(&after)
        };
    lemma_folds_is_any(facts, cfg.preds(node), before);
    let shorter = walk.drop_last();
    if pending_along(spec, *cfg, shorter) {
        let from = shorter.last();
        assert(cfg.is_walk(shorter)) by {
            assert forall|k: int| 0 <= k < shorter.len() implies #[trigger] shorter[k]
                < cfg.nodes@.len() by {
                assert(shorter[k] == walk[k]);
            }
            assert forall|k: int| 0 <= k < shorter.len() - 1 implies cfg.has_edge(
                #[trigger] shorter[k],
                shorter[k + 1],
            ) by {
                assert(shorter[k] == walk[k] && shorter[k + 1] == walk[k + 1]);
            }
        }
        lemma_walk_within(spec, cfg, transfer, facts, shorter);
        assert(walk[walk.len() - 2] == from);
        assert(cfg.has_edge(from, node));
        crate::dataflow::cfg::lemma_preds_contains(cfg.edges@, from, node);
        let k = choose|k: int| 0 <= k < cfg.preds(node).len() && cfg.preds(node)[k] == from;
        assert(facts[cfg.preds(node)[k] as int].0);
        assert(before.0);
    }
    lemma_pending_after_additive(spec, pending_along(spec, *cfg, shorter), before.0, stmts);
}

/// A solution has the flag set after a node exactly when some walk there
/// leaves it set.
proof fn lemma_solution<T: Fn(NodeId, &CfgNode<Stmt>, &Pending) -> Pending>(
    spec: CallOrderSpec,
    cfg: &Cfg<Stmt>,
    transfer: T,
    facts: Seq<Pending>,
    node: NodeId,
)
    requires
        cfg.well_formed(),
        solver::is_solution(cfg, transfer, facts),
        node < cfg.nodes@.len(),
        forall|i: NodeId, f: Pending, r: Pending| #[trigger]
            call_ensures(transfer, (i, &cfg.nodes@[i as int], &f), r) ==> r.0 == pending_after(
                spec,
                f.0,
                cfg.nodes@[i as int].stmts@,
            ),
    ensures
        facts[node as int].0 <==> exists|walk: Seq<NodeId>| leaves_pending(spec, *cfg, walk, node),
{
    let holds = |i: NodeId, f: Pending|
        f.0 ==> exists|walk: Seq<NodeId>| leaves_pending(spec, *cfg, walk, i);
    assert(solver::inductive(cfg, transfer, holds)) by {
        assert forall|now: Seq<Pending>, i: NodeId, before: Pending, after: Pending|
            {
                &&& now.len() == cfg.nodes@.len()
                &&& solver::all_valid(now)
                &&& forall|k: NodeId| 0 <= k < now.len() ==> holds(k, #[trigger] now[k as int])
                &&& 0 <= i < cfg.nodes@.len()
                &&& #[trigger] solver::folds(now, cfg.preds(i), before)
                &&& #[trigger] call_ensures(
                    transfer,
                    (i, &cfg.nodes@[i as int], &before),
                    after,
                )
            } implies holds(i, after) by {
            if after.0 {
                lemma_step_has_walk(spec, *cfg, now, i, before);
            }
        }
    }
    assert(holds(node, facts[node as int]));
    if exists|walk: Seq<NodeId>| leaves_pending(spec, *cfg, walk, node) {
        let walk = choose|walk: Seq<NodeId>| leaves_pending(spec, *cfg, walk, node);
        lemma_walk_within(spec, cfg, transfer, facts, walk);
    }
}

/// Where a node that starts from what walks to its predecessors leave has the
/// flag set, a walk to the node leaves it set.
proof fn lemma_step_has_walk(
    spec: CallOrderSpec,
    cfg: Cfg<Stmt>,
    facts: Seq<Pending>,
    node: NodeId,
    before: Pending,
)
    requires
        cfg.well_formed(),
        facts.len() == cfg.nodes@.len(),
        node < cfg.nodes@.len(),
        forall|k: NodeId|
            0 <= k < facts.len() && (#[trigger] facts[k as int]).0 ==> exists|walk: Seq<NodeId>|
                leaves_pending(spec, cfg, walk, k),
        solver::folds(facts, cfg.preds(node), before),
        pending_after(spec, before.0, cfg.nodes@[node as int].stmts@),
    ensures
        exists|walk: Seq<NodeId>| leaves_pending(spec, cfg, walk, node),
{
    let stmts = cfg.nodes@[node as int].stmts@;
    lemma_folds_is_any(facts, cfg.preds(node), before);
    if before.0 {
        let k = choose|k: int|
            0 <= k < cfg.preds(node).len() && facts[(#[trigger] cfg.preds(node)[k]) as int].0;
        let from = cfg.preds(node)[k];
        solver::lemma_preds_in_range(&cfg, node);
        assert(cfg.preds(node).contains(from));
        crate::dataflow::cfg::lemma_preds_contains(cfg.edges@, from, node);
        let short = choose|walk: Seq<NodeId>| leaves_pending(spec, cfg, walk, from);
        let walk = short.push(node);
        assert(cfg.is_walk(walk)) by {
            assert forall|k: int| 0 <= k < walk.len() implies #[trigger] walk[k]
                < cfg.nodes@.len() by {
                if k < short.len() {
                    assert(walk[k] == short[k]);
                }
            }
            assert forall|k: int| 0 <= k < walk.len() - 1 implies cfg.has_edge(
                #[trigger] walk[k],
                walk[k + 1],
            ) by {
                if k < short.len() - 1 {
                    assert(walk[k] == short[k] && walk[k + 1] == short[k + 1]);
                } else {
                    assert(walk[k] == from && walk[k + 1] == node);
                }
            }
        }
        assert(walk.drop_last() =~= short);
        assert(leaves_pending(spec, cfg, walk, node));
    } else {
        let walk = seq![node];
        assert(walk.drop_last() =~= Seq::empty());
        assert(!pending_along(spec, cfg, walk.drop_last()));
        assert(leaves_pending(spec, cfg, walk, node));
    }
}

/// The flag after each node.
fn exit_flags(spec: &CallOrderSpec, cfg: &Cfg<Stmt>) -> (flags: Vec<Pending>)
    requires
        cfg.well_formed(),
    ensures
        flags@.len() == cfg.nodes@.len(),
        forall|i: NodeId|
            0 <= i < cfg.nodes@.len() ==> ((#[trigger] flags@[i as int]).0 <==> exists|
                walk: Seq<NodeId>,
            |
                leaves_pending(*spec, *cfg, walk, i)),
{
    let transfer = |_id: NodeId, node: &CfgNode<Stmt>, flag: &Pending| -> (after: Pending)
        ensures
            after.0 == pending_after(*spec, flag.0, node.stmts@),
        { Pending(run_stmts(spec, flag.0, &node.stmts)) };
    proof {
        assert(solver::monotone(cfg, transfer)) by {
            assert forall|i: NodeId, f: Pending, g: Pending, r: Pending, s: Pending|
                0 <= i < cfg.nodes@.len() && f.below(&g) && #[trigger] call_ensures(
                    transfer,
                    (i, &cfg.nodes@[i as int], &f),
                    r,
                ) && #[trigger] call_ensures(
                    transfer,
                    (i, &cfg.nodes@[i as int], &g),
                    s,
                ) implies r.below(&s) by {
                lemma_pending_after_additive(*spec, f.0, g.0, cfg.nodes@[i as int].stmts@);
            }
        }
        let inside = |f: Pending| true;
        assert(solver::confined(cfg, transfer, inside, 1));
    }
    let flags: Vec<Pending> = solver::solve(cfg, transfer);
    proof {
        assert forall|i: NodeId| 0 <= i < cfg.nodes@.len() implies ((#[trigger] flags@[i as int]).0
            <==> exists|walk: Seq<NodeId>| leaves_pending(*spec, *cfg, walk, i)) by {
            lemma_solution(*spec, cfg, transfer, flags@, i);
        }
    }
    flags
}

/// Whether the flag is set on entry to a node.
fn entry_flag(spec: &CallOrderSpec, cfg: &Cfg<Stmt>, flags: &Vec<Pending>, node: NodeId) -> (r: bool)
    requires
        cfg.well_formed(),
        flags@.len() == cfg.nodes@.len(),
        forall|i: NodeId|
            0 <= i < cfg.nodes@.len() ==> ((#[trigger] flags@[i as int]).0 <==> exists|
                walk: Seq<NodeId>,
            |
                leaves_pending(*spec, *cfg, walk, i)),
    ensures
        r == pending_at_entry(*spec, *cfg, node),
{
    let preds: Vec<NodeId> = cfg.predecessors(node);
    proof {
        solver::lemma_preds_in_range(cfg, node);
    }
    let mut k: usize = 0;
    while k < preds.len()
        invariant
            0 <= k <= preds@.len(),
            preds@ == cfg.preds(node),
            flags@.len() == cfg.nodes@.len(),
            forall|j: int| 0 <= j < preds@.len() ==> #[trigger] preds@[j] < cfg.nodes@.len(),
            forall|i: NodeId|
                0 <= i < cfg.nodes@.len() ==> ((#[trigger] flags@[i as int]).0 <==> exists|
                    walk: Seq<NodeId>,
                |
                    leaves_pending(*spec, *cfg, walk, i)),
            forall|j: int| 0 <= j < k ==> !flags@[(#[trigger] preds@[j]) as int].0,
        decreases preds.len() - k,
    {
        if flags[preds[k]].0 {
            proof {
                let from = preds@[k as int];
                assert(cfg.preds(node).contains(from));
                crate::dataflow::cfg::lemma_preds_contains(cfg.edges@, from, node);
                let walk = choose|walk: Seq<NodeId>| leaves_pending(*spec, *cfg, walk, from);
                assert(cfg.has_edge(from, node) && leaves_pending(*spec, *cfg, walk, from));
            }
            return true;
        }
        k += 1;
    }
    proof {
        assert forall|from: NodeId, walk: Seq<NodeId>|
            cfg.has_edge(from, node) implies !#[trigger] leaves_pending(*spec, *cfg, walk, from) by {
            crate::dataflow::cfg::lemma_preds_contains(cfg.edges@, from, node);
            let j = choose|j: int| 0 <= j < preds@.len() && preds@[j] == from;
            assert(!flags@[preds@[j] as int].0);
        }
    }
    false
}

/// Runs `spec` against one function's graph. The hits come in node order,
/// within a node in statement order.
pub fn check(spec: &CallOrderSpec, cfg: &Cfg<Stmt>) -> (hits: Vec<CallOrderHit>)
    requires
        cfg.well_formed(),
    ensures
        text::views(hits@) == hits_in(*spec, *cfg, cfg.nodes@.len()),
{
    let flags: Vec<Pending> = exit_flags(spec, cfg);
    let mut hits: Vec<CallOrderHit> = Vec::new();
    let mut n: usize = 0;
    proof {
        assert(text::views(hits@) =~= Seq::<CallOrderHitView>::empty());
    }
    while n < cfg.nodes.len()
        invariant
            cfg.well_formed(),
            0 <= n <= cfg.nodes@.len(),
            flags@.len() == cfg.nodes@.len(),
            forall|i: NodeId|
                0 <= i < cfg.nodes@.len() ==> ((#[trigger] flags@[i as int]).0 <==> exists|
                    walk: Seq<NodeId>,
                |
                    leaves_pending(*spec, *cfg, walk, i)),
            text::views(hits@) == hits_in(*spec, *cfg, n as nat),
        decreases cfg.nodes.len() - n,
    {
        let line: u32 = cfg.nodes[n].source_line;
        let start: bool = entry_flag(spec, cfg, &flags, n);
        let mut pending: bool = start;
        let ghost earlier = text::views(hits@);
        let ghost stmts = cfg.nodes@[n as int].stmts@;
        let mut k: usize = 0;
        proof {
            assert(earlier + Seq::<CallOrderHitView>::empty() =~= earlier);
        }
        while k < cfg.nodes[n].stmts.len()
            invariant
                n < cfg.nodes@.len(),
                stmts == cfg.nodes@[n as int].stmts@,
                0 <= k <= stmts.len(),
                pending == pending_after(*spec, start, stmts.take(k as int)),
                text::views(hits@) == earlier + run_hits(
                    *spec,
                    start,
                    stmts.take(k as int),
                    n,
                    line,
                ),
            decreases stmts.len() - k,
        {
            proof {
                assert(stmts.take(k + 1).drop_last() =~= stmts.take(k as int));
                assert(stmts.take(k + 1).last() == stmts[k as int]);
            }
            let ghost so_far = text::views(hits@);
            match &cfg.nodes[n].stmts[k] {
                Stmt::Call { target: CallTarget::Named(name), args: _, assigned_to: _ } => {
                    if pending && taint::any_matches(&spec.before, name.as_str()) {
                        let hit = CallOrderHit {
                            trigger_call: name.clone(),
                            node: n,
                            source_line: line,
                        };
                        proof {
                            text::lemma_views_push(hits@, hit);
                        }
                        hits.push(hit);
                    }
                },
                Stmt::Return { value: _ } => {
                    if pending && spec.check_before_return {
                        let hit = CallOrderHit {
                            trigger_call: "return".to_owned(),
                            node: n,
                            source_line: line,
                        };
                        proof {
                            text::lemma_views_push(hits@, hit);
                        }
                        hits.push(hit);
                    }
                },
                _ => {},
            }
            proof {
                assert(text::views(hits@) =~= so_far + stmt_hits(
                    *spec,
                    pending,
                    stmts[k as int],
                    n,
                    line,
                ));
                assert(text::views(hits@) =~= earlier + run_hits(
                    *spec,
                    start,
                    stmts.take(k + 1),
                    n,
                    line,
                ));
            }
            pending = apply(spec, pending, &cfg.nodes[n].stmts[k]);
            k += 1;
        }
        proof {
            assert(stmts.take(stmts.len() as int) =~= stmts);
        }
        n += 1;
    }
    hits
}

/// Without a call that sets the flag there is no hit.
pub proof fn nothing_is_owed_without_an_after_call(spec: CallOrderSpec, cfg: Cfg<Stmt>)
    requires
        cfg.well_formed(),
        forall|n: int, k: int|
            0 <= n < cfg.nodes@.len() && 0 <= k < cfg.nodes@[n].stmts@.len()
                ==> !pending_flow(spec, false, #[trigger] cfg.nodes@[n].stmts@[k]),
    ensures
        hits_in(spec, cfg, cfg.nodes@.len()) == Seq::<CallOrderHitView>::empty(),
{
    lemma_no_hits(spec, cfg, cfg.nodes@.len());
}

proof fn lemma_stays_clear(spec: CallOrderSpec, cfg: Cfg<Stmt>, n: int, count: int)
    requires
        forall|n: int, k: int|
            0 <= n < cfg.nodes@.len() && 0 <= k < cfg.nodes@[n].stmts@.len()
                ==> !pending_flow(spec, false, #[trigger] cfg.nodes@[n].stmts@[k]),
        0 <= n < cfg.nodes@.len(),
        0 <= count <= cfg.nodes@[n].stmts@.len(),
    ensures
        !pending_after(spec, false, cfg.nodes@[n].stmts@.take(count)),
        run_hits(
            spec,
            false,
            cfg.nodes@[n].stmts@.take(count),
            n as NodeId,
            cfg.nodes@[n].source_line,
        ) == Seq::<CallOrderHitView>::empty(),
    decreases count,
{
    let stmts = cfg.nodes@[n].stmts@;
    if count > 0 {
        assert(stmts.take(count).drop_last() =~= stmts.take(count - 1));
        assert(stmts.take(count).last() == stmts[count - 1]);
        lemma_stays_clear(spec, cfg, n, count - 1);
        assert(stmt_hits(spec, false, stmts[count - 1], n as NodeId, cfg.nodes@[n].source_line)
            =~= Seq::empty());
    }
}

proof fn lemma_clear_along(spec: CallOrderSpec, cfg: Cfg<Stmt>, walk: Seq<NodeId>)
    requires
        forall|n: int, k: int|
            0 <= n < cfg.nodes@.len() && 0 <= k < cfg.nodes@[n].stmts@.len()
                ==> !pending_flow(spec, false, #[trigger] cfg.nodes@[n].stmts@[k]),
        forall|k: int| 0 <= k < walk.len() ==> #[trigger] walk[k] < cfg.nodes@.len(),
    ensures
        !pending_along(spec, cfg, walk),
    decreases walk.len(),
{
    if walk.len() > 0 {
        let shorter = walk.drop_last();
        assert forall|k: int| 0 <= k < shorter.len() implies #[trigger] shorter[k]
            < cfg.nodes@.len() by {
            assert(shorter[k] == walk[k]);
        }
        lemma_clear_along(spec, cfg, shorter);
        let node = walk.last() as int;
        assert(walk[walk.len() - 1] == walk.last());
        let stmts = cfg.nodes@[node].stmts@;
        lemma_stays_clear(spec, cfg, node, stmts.len() as int);
        assert(stmts.take(stmts.len() as int) =~= stmts);
    }
}

proof fn lemma_no_hits(spec: CallOrderSpec, cfg: Cfg<Stmt>, count: nat)
    requires
        cfg.well_formed(),
        forall|n: int, k: int|
            0 <= n < cfg.nodes@.len() && 0 <= k < cfg.nodes@[n].stmts@.len()
                ==> !pending_flow(spec, false, #[trigger] cfg.nodes@[n].stmts@[k]),
        count <= cfg.nodes@.len(),
    ensures
        hits_in(spec, cfg, count) == Seq::<CallOrderHitView>::empty(),
    decreases count,
{
    if count > 0 {
        lemma_no_hits(spec, cfg, (count - 1) as nat);
        assert(cfg.nodes.len() == cfg.nodes@.len());
        let node = (count - 1) as NodeId;
        let stmts = cfg.nodes@[node as int].stmts@;
        if pending_at_entry(spec, cfg, node) {
            let (from, walk) = choose|from: NodeId, walk: Seq<NodeId>|
                cfg.has_edge(from, node) && #[trigger] leaves_pending(spec, cfg, walk, from);
            lemma_clear_along(spec, cfg, walk);
        }
        lemma_stays_clear(spec, cfg, node as int, stmts.len() as int);
        assert(stmts.take(stmts.len() as int) =~= stmts);
        assert(hits_in(spec, cfg, count) =~= Seq::<CallOrderHitView>::empty());
    }
}

/// A call that matches both `unless` and `after` clears the flag.
pub proof fn unless_outranks_after(spec: CallOrderSpec, pending: bool, stmt: Stmt)
    requires
        stmt matches Stmt::Call { target: CallTarget::Named(name), args, assigned_to }
            && taint::any_accepts(spec.unless@, name@),
    ensures
        !pending_flow(spec, pending, stmt),
{
}

proof fn lemma_run_hits(
    spec: CallOrderSpec,
    pending: bool,
    stmts: Seq<Stmt>,
    node: NodeId,
    line: u32,
    hit: CallOrderHitView,
)
    ensures
        run_hits(spec, pending, stmts, node, line).contains(hit) <==> exists|k: int|
            0 <= k < stmts.len() && (#[trigger] stmt_hits(
                spec,
                pending_after(spec, pending, stmts.take(k)),
                stmts[k],
                node,
                line,
            )).contains(hit),
    decreases stmts.len(),
{
    if stmts.len() > 0 {
        let rest = stmts.drop_last();
        let last = stmts.len() - 1;
        let earlier = run_hits(spec, pending, rest, node, line);
        let here = stmt_hits(spec, pending_after(spec, pending, rest), stmts[last], node, line);
        lemma_run_hits(spec, pending, rest, node, line, hit);
        text::lemma_joined_contains(earlier, here, hit);
        assert(stmts.take(last) =~= rest);
        assert(here == stmt_hits(
            spec,
            pending_after(spec, pending, stmts.take(last)),
            stmts[last],
            node,
            line,
        ));
        if earlier.contains(hit) {
            let k = choose|k: int|
                0 <= k < rest.len() && (#[trigger] stmt_hits(
                    spec,
                    pending_after(spec, pending, rest.take(k)),
                    rest[k],
                    node,
                    line,
                )).contains(hit);
            assert(stmts.take(k) =~= rest.take(k));
            assert(stmt_hits(
                spec,
                pending_after(spec, pending, stmts.take(k)),
                stmts[k],
                node,
                line,
            ).contains(hit));
        }
        if exists|k: int|
            0 <= k < stmts.len() && (#[trigger] stmt_hits(
                spec,
                pending_after(spec, pending, stmts.take(k)),
                stmts[k],
                node,
                line,
            )).contains(hit) {
            let k = choose|k: int|
                0 <= k < stmts.len() && (#[trigger] stmt_hits(
                    spec,
                    pending_after(spec, pending, stmts.take(k)),
                    stmts[k],
                    node,
                    line,
                )).contains(hit);
            if k < last {
                assert(stmts.take(k) =~= rest.take(k));
                assert(stmt_hits(
                    spec,
                    pending_after(spec, pending, rest.take(k)),
                    rest[k],
                    node,
                    line,
                ).contains(hit));
            }
        }
    } else {
        assert(run_hits(spec, pending, stmts, node, line).len() == 0);
    }
}

/// `hit` is on statement `k` of `node`, given whether some walk leaves the flag
/// set there.
pub open spec fn owed_at(
    spec: CallOrderSpec,
    cfg: Cfg<Stmt>,
    node: int,
    k: int,
    hit: CallOrderHitView,
) -> bool {
    &&& 0 <= k < cfg.nodes@[node].stmts@.len()
    &&& stmt_hits(
        spec,
        pending_after(
            spec,
            pending_at_entry(spec, cfg, node as NodeId),
            cfg.nodes@[node].stmts@.take(k),
        ),
        cfg.nodes@[node].stmts@[k],
        node as NodeId,
        cfg.nodes@[node].source_line,
    ).contains(hit)
}

/// A call or a return is reported exactly where some walk reaches it with the
/// flag set.
pub proof fn hits_are_what_is_owed(
    spec: CallOrderSpec,
    cfg: Cfg<Stmt>,
    count: nat,
    hit: CallOrderHitView,
)
    requires
        count <= cfg.nodes@.len(),
        cfg.nodes@.len() <= NodeId::MAX,
    ensures
        hits_in(spec, cfg, count).contains(hit) <==> exists|node: int, k: int|
            0 <= node < count && #[trigger] owed_at(spec, cfg, node, k, hit),
    decreases count,
{
    if count > 0 {
        let last = count - 1;
        let node = last as NodeId;
        let pending = pending_at_entry(spec, cfg, node);
        let stmts = cfg.nodes@[last].stmts@;
        let line = cfg.nodes@[last].source_line;
        let before = hits_in(spec, cfg, last as nat);
        let here = run_hits(spec, pending, stmts, node, line);
        hits_are_what_is_owed(spec, cfg, last as nat, hit);
        lemma_run_hits(spec, pending, stmts, node, line, hit);
        text::lemma_joined_contains(before, here, hit);
        if before.contains(hit) {
            let (n, k) = choose|n: int, k: int|
                0 <= n < last && #[trigger] owed_at(spec, cfg, n, k, hit);
            assert(0 <= n < count && owed_at(spec, cfg, n, k, hit));
        }
        if here.contains(hit) {
            let k = choose|k: int|
                0 <= k < stmts.len() && (#[trigger] stmt_hits(
                    spec,
                    pending_after(spec, pending, stmts.take(k)),
                    stmts[k],
                    node,
                    line,
                )).contains(hit);
            assert(owed_at(spec, cfg, last, k, hit));
        }
        if exists|n: int, k: int| 0 <= n < count && #[trigger] owed_at(spec, cfg, n, k, hit) {
            let (n, k) = choose|n: int, k: int|
                0 <= n < count && #[trigger] owed_at(spec, cfg, n, k, hit);
            if n < last {
                assert(owed_at(spec, cfg, n, k, hit));
            } else {
                assert(stmt_hits(
                    spec,
                    pending_after(spec, pending, stmts.take(k)),
                    stmts[k],
                    node,
                    line,
                ).contains(hit));
            }
        }
    } else {
        assert(hits_in(spec, cfg, count).len() == 0);
    }
}

/// What a statement does to the flag: a call that an `unless` pattern accepts
/// clears it; any other call that an `after` pattern accepts sets it; everything
/// else leaves it as it is.
pub proof fn only_named_calls_change_the_flag(spec: CallOrderSpec, pending: bool, stmt: Stmt)
    ensures
        stmt matches Stmt::Call { target: CallTarget::Named(name), args, assigned_to } ==> {
            let clears = exists|i: int|
                0 <= i < spec.unless@.len() && (#[trigger] spec.unless@[i]).accepts(name@);
            let sets = exists|i: int|
                0 <= i < spec.after@.len() && (#[trigger] spec.after@[i]).accepts(name@);
            &&& clears ==> !pending_flow(spec, pending, stmt)
            &&& !clears && sets ==> pending_flow(spec, pending, stmt)
            &&& !clears && !sets ==> pending_flow(spec, pending, stmt) == pending
        },
        !(stmt is Call) ==> pending_flow(spec, pending, stmt) == pending,
        stmt matches Stmt::Call { target, args, assigned_to } && target is Unknown ==> pending_flow(
            spec,
            pending,
            stmt,
        ) == pending,
{
}

/// Some walk reaches statement `k` of `node` with the flag set: it is set on
/// entry by a walk to a predecessor, or clear, and the statements in front of the
/// statement leave it set.
pub open spec fn reached_pending(spec: CallOrderSpec, cfg: Cfg<Stmt>, node: NodeId, k: int) -> bool {
    let front = cfg.nodes@[node as int].stmts@.take(k);
    ||| pending_after(spec, false, front)
    ||| pending_after(spec, true, front) && exists|walk: Seq<NodeId>|
        cfg.is_walk(walk) && cfg.has_edge(walk.last(), node) && #[trigger] pending_along(
            spec,
            cfg,
            walk,
        )
}

proof fn lemma_reached(spec: CallOrderSpec, cfg: Cfg<Stmt>, node: NodeId, k: int)
    requires
        node < cfg.nodes@.len(),
        0 <= k < cfg.nodes@[node as int].stmts@.len(),
    ensures
        reached_pending(spec, cfg, node, k) <==> pending_after(
            spec,
            pending_at_entry(spec, cfg, node),
            cfg.nodes@[node as int].stmts@.take(k),
        ),
{
    let front = cfg.nodes@[node as int].stmts@.take(k);
    lemma_pending_after_additive(spec, pending_at_entry(spec, cfg, node), false, front);
    lemma_pending_after_additive(spec, true, false, front);
    if pending_at_entry(spec, cfg, node) {
        let (from, walk) = choose|from: NodeId, walk: Seq<NodeId>|
            cfg.has_edge(from, node) && #[trigger] leaves_pending(spec, cfg, walk, from);
        assert(pending_along(spec, cfg, walk) && cfg.has_edge(walk.last(), node));
    }
    if exists|walk: Seq<NodeId>|
        cfg.is_walk(walk) && cfg.has_edge(walk.last(), node) && #[trigger] pending_along(
            spec,
            cfg,
            walk,
        ) {
        let walk = choose|walk: Seq<NodeId>|
            cfg.is_walk(walk) && cfg.has_edge(walk.last(), node) && #[trigger] pending_along(
                spec,
                cfg,
                walk,
            );
        assert(leaves_pending(spec, cfg, walk, walk.last()));
    }
}

/// A return that some walk reaches with the flag set is reported, whatever it
/// returns, where the rule checks returns; so is a call that a `before` pattern
/// accepts.
pub proof fn what_is_reached_pending_is_reported(
    spec: CallOrderSpec,
    cfg: Cfg<Stmt>,
    node: NodeId,
    k: int,
)
    requires
        node < cfg.nodes@.len() <= NodeId::MAX,
        0 <= k < cfg.nodes@[node as int].stmts@.len(),
        reached_pending(spec, cfg, node, k),
    ensures
        cfg.nodes@[node as int].stmts@[k] is Return && spec.check_before_return ==> hits_in(
            spec,
            cfg,
            cfg.nodes@.len(),
        ).contains(
            CallOrderHitView {
                trigger_call: "return"@,
                node,
                source_line: cfg.nodes@[node as int].source_line,
            },
        ),
        cfg.nodes@[node as int].stmts@[k] matches Stmt::Call {
            target: CallTarget::Named(name),
            args,
            assigned_to,
        } ==> ((exists|i: int|
            0 <= i < spec.before@.len() && (#[trigger] spec.before@[i]).accepts(name@)) ==> hits_in(
            spec,
            cfg,
            cfg.nodes@.len(),
        ).contains(
            CallOrderHitView {
                trigger_call: name@,
                node,
                source_line: cfg.nodes@[node as int].source_line,
            },
        )),
{
    let stmt = cfg.nodes@[node as int].stmts@[k];
    let line = cfg.nodes@[node as int].source_line;
    lemma_reached(spec, cfg, node, k);
    let word = match stmt {
        Stmt::Call { target: CallTarget::Named(name), args, assigned_to } => name@,
        _ => "return"@,
    };
    let hit = CallOrderHitView { trigger_call: word, node, source_line: line };
    hits_are_what_is_owed(spec, cfg, cfg.nodes@.len(), hit);
    assert(seq![hit][0] == hit);
    assert(seq![hit].contains(hit));
    assert((node as int) as NodeId == node);
    if stmt is Return && spec.check_before_return {
        assert(owed_at(spec, cfg, node as int, k, hit));
    }
    if let Stmt::Call { target: CallTarget::Named(name), args, assigned_to } = stmt {
        if exists|i: int| 0 <= i < spec.before@.len() && (#[trigger] spec.before@[i]).accepts(name@) {
            assert(owed_at(spec, cfg, node as int, k, hit));
        }
    }
}

/// Whatever is reported is a return, where the rule checks returns, or a call
/// that a `before` pattern accepts, and some walk reaches it with the flag set.
pub proof fn only_what_is_reached_pending_is_reported(
    spec: CallOrderSpec,
    cfg: Cfg<Stmt>,
    hit: CallOrderHitView,
)
    requires
        cfg.nodes@.len() <= NodeId::MAX,
        hits_in(spec, cfg, cfg.nodes@.len()).contains(hit),
    ensures
        hit.node < cfg.nodes@.len(),
        hit.source_line == cfg.nodes@[hit.node as int].source_line,
        exists|k: int|
            {
                &&& 0 <= k < cfg.nodes@[hit.node as int].stmts@.len()
                &&& #[trigger] reached_pending(spec, cfg, hit.node, k)
                &&& match cfg.nodes@[hit.node as int].stmts@[k] {
                    Stmt::Return { value } => spec.check_before_return && hit.trigger_call
                        == "return"@,
                    Stmt::Call { target: CallTarget::Named(name), args, assigned_to } =>
                    hit.trigger_call == name@ && exists|i: int|
                        0 <= i < spec.before@.len() && (#[trigger] spec.before@[i]).accepts(name@),
                    _ => false,
                }
            },
{
    let len = cfg.nodes@.len();
    hits_are_what_is_owed(spec, cfg, len, hit);
    let (node, k) = choose|node: int, k: int|
        0 <= node < len && #[trigger] owed_at(spec, cfg, node, k, hit);
    lemma_reached(spec, cfg, node as NodeId, k);
    let pending = pending_after(
        spec,
        pending_at_entry(spec, cfg, node as NodeId),
        cfg.nodes@[node].stmts@.take(k),
    );
    let stmt = cfg.nodes@[node].stmts@[k];
    let line = cfg.nodes@[node].source_line;
    let here = stmt_hits(spec, pending, stmt, node as NodeId, line);
    let j = choose|j: int| 0 <= j < here.len() && here[j] == hit;
    assert(here[j].node == node && hit.node == node);
    assert(reached_pending(spec, cfg, hit.node, k));
}

/// The flag along a walk: it starts clear, and each node takes it on from the one
/// before it, statement by statement.
pub proof fn the_flag_follows_the_walk(
    spec: CallOrderSpec,
    cfg: Cfg<Stmt>,
    walk: Seq<NodeId>,
    node: NodeId,
    pending: bool,
    a: Seq<Stmt>,
    stmt: Stmt,
)
    ensures
        !pending_along(spec, cfg, Seq::<NodeId>::empty()),
        pending_along(spec, cfg, walk.push(node)) == pending_after(
            spec,
            pending_along(spec, cfg, walk),
            cfg.nodes@[node as int].stmts@,
        ),
        pending_after(spec, pending, Seq::<Stmt>::empty()) == pending,
        pending_after(spec, pending, a.push(stmt)) == pending_flow(
            spec,
            pending_after(spec, pending, a),
            stmt,
        ),
{
    assert(walk.push(node).drop_last() =~= walk);
    assert(a.push(stmt).drop_last() =~= a);
}

} // verus!
