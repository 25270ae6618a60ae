//! Analyses whose fact is a set of names: which variables are tainted, may be
//! nil, are loop variables. Each rule says what one statement does to such a
//! set; what holds on entry to a node is then what some walk through the graph
//! that leads there establishes.

use vstd::prelude::*;

use crate::dataflow::cfg::{Cfg, CfgNode, NodeId, Stmt};
use crate::dataflow::lattice::Lattice;
use crate::dataflow::solver;
use crate::names::NameSet;
use crate::text;

verus! {

impl Lattice for NameSet {
    open spec fn valid(&self) -> bool {
        true
    }

    open spec fn is_bottom(&self) -> bool {
        self@ == Set::<Seq<char>>::empty()
    }

    open spec fn below(&self, other: &Self) -> bool {
        self@.subset_of(other@)
    }

    open spec fn joins(&self, other: &Self, merged: &Self) -> bool {
        merged@ == self@.union(other@)
    }

    open spec fn rank(&self) -> nat {
        self@.len()
    }

    fn bottom() -> (fact: Self) {
        NameSet::new()
    }

    fn join(&self, other: &Self) -> (merged: Self) {
        self.union(other)
    }

    proof fn below_reflexive(a: Self) {
    }

    proof fn below_transitive(a: Self, b: Self, c: Self) {
    }

    proof fn eq_is_mutual_below(a: Self, b: Self) {
        if a.below(&b) && b.below(&a) {
            assert(a@ =~= b@);
        }
    }

    proof fn bottom_is_least(a: Self, b: Self) {
    }

    proof fn join_is_monotone(a: Self, b: Self, m: Self, a2: Self, b2: Self, m2: Self) {
    }

    proof fn rank_climbs(a: Self, b: Self) {
        a.lemma_finite();
        b.lemma_finite();
        vstd::set_lib::lemma_len_subset(a@, b@);
        if !b.below(&a) {
            let x = choose|x: Seq<char>| b@.contains(x) && !a@.contains(x);
            a@.lemma_subset_not_in_lt(b@, x);
        }
    }
}

/// What one statement does to the set of names that an analysis tracks.
pub trait NameRule {
    /// The names tracked after `stmt`, given those tracked before it.
    spec fn flow(&self, held: Set<Seq<char>>, stmt: Stmt) -> Set<Seq<char>>;

    /// The names that `stmt` may add.
    spec fn added(&self, stmt: Stmt) -> Set<Seq<char>>;

    /// The names tracked after `stmt`, given those tracked before it.
    fn step(&self, held: &NameSet, stmt: &Stmt) -> (after: NameSet)
        ensures
            after@ == self.flow(held@, *stmt),
    ;

    /// A statement treats the names tracked before it one by one.
    proof fn flow_is_additive(&self, a: Set<Seq<char>>, b: Set<Seq<char>>, stmt: Stmt)
        ensures
            self.flow(a.union(b), stmt) == self.flow(a, stmt).union(self.flow(b, stmt)),
    ;

    /// A statement adds only finitely many names, and none but `added`.
    proof fn flow_is_bounded(&self, held: Set<Seq<char>>, stmt: Stmt)
        ensures
            self.flow(held, stmt).subset_of(held.union(self.added(stmt))),
            self.added(stmt).finite(),
    ;
}

/// The names tracked after the statements, given those tracked before them.
pub open spec fn flow_all<R: NameRule>(rule: R, held: Set<Seq<char>>, stmts: Seq<Stmt>) -> Set<
    Seq<char>,
>
    decreases stmts.len(),
{
    if stmts.len() == 0 {
        held
    } else {
        rule.flow(flow_all(rule, held, stmts.drop_last()), stmts.last())
    }
}

/// The names tracked at the end of a walk that starts with none.
pub open spec fn along<R: NameRule>(rule: R, cfg: Cfg<Stmt>, walk: Seq<NodeId>) -> Set<Seq<char>>
    decreases walk.len(),
{
    if walk.len() == 0 {
        Set::empty()
    } else {
        flow_all(rule, along(rule, cfg, walk.drop_last()), cfg.nodes@[walk.last() as int].stmts@)
    }
}

/// `walk` ends in `node` with `name` tracked.
pub open spec fn carries<R: NameRule>(
    rule: R,
    cfg: Cfg<Stmt>,
    walk: Seq<NodeId>,
    node: NodeId,
    name: Seq<char>,
) -> bool {
    cfg.is_walk(walk) && walk.last() == node && along(rule, cfg, walk).contains(name)
}

/// The names that some walk to `node` tracks when the node is done.
pub open spec fn held_after<R: NameRule>(rule: R, cfg: Cfg<Stmt>, node: NodeId) -> Set<Seq<char>> {
    Set::new(|name: Seq<char>| exists|walk: Seq<NodeId>| carries(rule, cfg, walk, node, name))
}

/// The names that some walk tracks on entry to `node`.
pub open spec fn held_before<R: NameRule>(rule: R, cfg: Cfg<Stmt>, node: NodeId) -> Set<
    Seq<char>,
> {
    Set::new(
        |name: Seq<char>|
            exists|from: NodeId, walk: Seq<NodeId>|
                cfg.has_edge(from, node) && #[trigger] carries(rule, cfg, walk, from, name),
    )
}

/// The names that some walk tracks just before statement `k` of `node`.
pub open spec fn held_at<R: NameRule>(rule: R, cfg: Cfg<Stmt>, node: NodeId, k: int) -> Set<
    Seq<char>,
> {
    flow_all(rule, held_before(rule, cfg, node), cfg.nodes@[node as int].stmts@.take(k))
}

proof fn lemma_flow_all_additive<R: NameRule>(
    rule: R,
    a: Set<Seq<char>>,
    b: Set<Seq<char>>,
    stmts: Seq<Stmt>,
)
    ensures
        flow_all(rule, a.union(b), stmts) == flow_all(rule, a, stmts).union(
            flow_all(rule, b, stmts),
        ),
    decreases stmts.len(),
{
    if stmts.len() > 0 {
        lemma_flow_all_additive(rule, a, b, stmts.drop_last());
        rule.flow_is_additive(
            flow_all(rule, a, stmts.drop_last()),
            flow_all(rule, b, stmts.drop_last()),
            stmts.last(),
        );
    }
}

proof fn lemma_flow_all_monotone<R: NameRule>(
    rule: R,
    a: Set<Seq<char>>,
    b: Set<Seq<char>>,
    stmts: Seq<Stmt>,
)
    requires
        a.subset_of(b),
    ensures
        flow_all(rule, a, stmts).subset_of(flow_all(rule, b, stmts)),
{
    lemma_flow_all_additive(rule, a, b, stmts);
    assert(a.union(b) =~= b);
}

/// What is tracked after statements comes from nothing or from one name that
/// was tracked before them.
proof fn lemma_flow_all_origin<R: NameRule>(
    rule: R,
    held: Set<Seq<char>>,
    stmts: Seq<Stmt>,
    name: Seq<char>,
)
    requires
        held.finite(),
        flow_all(rule, held, stmts).contains(name),
    ensures
        flow_all(rule, Set::empty(), stmts).contains(name) || exists|origin: Seq<char>|
            held.contains(origin) && #[trigger] flow_all(
                rule,
                Set::empty().insert(origin),
                stmts,
            ).contains(name),
    decreases held.len(),
{
    if held.len() == 0 {
        held.lemma_len0_is_empty();
    } else {
        let one = held.choose();
        let single = Set::<Seq<char>>::empty().insert(one);
        let rest = held.remove(one);
        assert(rest.union(single) =~= held);
        lemma_flow_all_additive(rule, rest, single, stmts);
        if flow_all(rule, single, stmts).contains(name) {
            assert(held.contains(one));
        } else {
            lemma_flow_all_origin(rule, rest, stmts, name);
            if !flow_all(rule, Set::empty(), stmts).contains(name) {
                let origin = choose|origin: Seq<char>|
                    rest.contains(origin) && #[trigger] flow_all(
                        rule,
                        Set::empty().insert(origin),
                        stmts,
                    ).contains(name);
                assert(held.contains(origin));
            }
        }
    }
}

/// The names that the statements may add.
spec fn names_added<R: NameRule>(rule: R, stmts: Seq<Stmt>) -> Set<Seq<char>>
    decreases stmts.len(),
{
    if stmts.len() == 0 {
        Set::empty()
    } else {
        names_added(rule, stmts.drop_last()).union(rule.added(stmts.last()))
    }
}

/// The names that the nodes may add.
spec fn universe<R: NameRule>(rule: R, nodes: Seq<CfgNode<Stmt>>) -> Set<Seq<char>>
    decreases nodes.len(),
{
    if nodes.len() == 0 {
        Set::empty()
    } else {
        universe(rule, nodes.drop_last()).union(names_added(rule, nodes.last().stmts@))
    }
}

proof fn lemma_flow_all_bounded<R: NameRule>(rule: R, held: Set<Seq<char>>, stmts: Seq<Stmt>)
    ensures
        flow_all(rule, held, stmts).subset_of(held.union(names_added(rule, stmts))),
        names_added(rule, stmts).finite(),
    decreases stmts.len(),
{
    if stmts.len() > 0 {
        lemma_flow_all_bounded(rule, held, stmts.drop_last());
        rule.flow_is_bounded(flow_all(rule, held, stmts.drop_last()), stmts.last());
    }
}

proof fn lemma_universe<R: NameRule>(rule: R, nodes: Seq<CfgNode<Stmt>>)
    ensures
        universe(rule, nodes).finite(),
        forall|i: int|
            0 <= i < nodes.len() ==> names_added(rule, (#[trigger] nodes[i]).stmts@).subset_of(
                universe(rule, nodes),
            ),
    decreases nodes.len(),
{
    if nodes.len() > 0 {
        lemma_universe(rule, nodes.drop_last());
        lemma_flow_all_bounded(rule, Set::empty(), nodes.last().stmts@);
        assert forall|i: int| 0 <= i < nodes.len() implies names_added(
            rule,
            (#[trigger] nodes[i]).stmts@,
        ).subset_of(universe(rule, nodes)) by {
            if i < nodes.len() - 1 {
                assert(nodes.drop_last()[i] == nodes[i]);
            }
        }
    }
}

/// What a merge of name sets holds is what one of them holds.
proof fn lemma_folds_is_union(facts: Seq<NameSet>, preds: Seq<NodeId>, fact: NameSet)
    requires
        solver::folds(facts, preds, fact),
    ensures
        forall|name: Seq<char>| #[trigger]
            fact@.contains(name) <==> exists|k: int|
                0 <= k < preds.len() && facts[(#[trigger] preds[k]) as int]@.contains(name),
{
    let steps = choose|steps: Seq<NameSet>| #[trigger]
        solver::merges(facts, preds, steps) && steps.last() == fact;
    lemma_merges_is_union(facts, preds, steps, preds.len() as int);
}

proof fn lemma_merges_is_union(facts: Seq<NameSet>, preds: Seq<NodeId>, steps: Seq<NameSet>, n: int)
    requires
        solver::merges(facts, preds, steps),
        0 <= n <= preds.len(),
    ensures
        forall|name: Seq<char>| #[trigger]
            steps[n]@.contains(name) <==> exists|k: int|
                0 <= k < n && facts[(#[trigger] preds[k]) as int]@.contains(name),
    decreases n,
{
    if n > 0 {
        lemma_merges_is_union(facts, preds, steps, n - 1);
        let last = facts[preds[n - 1] as int];
        assert(steps[n - 1].joins(&last, &steps[n]));
        assert forall|name: Seq<char>| #[trigger] steps[n]@.contains(name) <==> exists|k: int|
            0 <= k < n && facts[(#[trigger] preds[k]) as int]@.contains(name) by {
            assert(steps[n]@.contains(name) <==> steps[n - 1]@.contains(name) || last@.contains(
                name,
            ));
        }
    }
}

/// The names tracked after the statements of a node.
fn run_node<R: NameRule>(rule: &R, held: &NameSet, node: &CfgNode<Stmt>) -> (after: NameSet)
    ensures
        after@ == flow_all(*rule, held@, node.stmts@),
{
    let mut now: NameSet = held.dup();
    let mut k: usize = 0;
    while k < node.stmts.len()
        invariant
            0 <= k <= node.stmts@.len(),
            now@ == flow_all(*rule, held@, node.stmts@.take(k as int)),
        decreases node.stmts.len() - k,
    {
        proof {
            assert(node.stmts@.take(k + 1).drop_last() =~= node.stmts@.take(k as int));
        }
        now = rule.step(&now, &node.stmts[k]);
        k += 1;
    }
    proof {
        assert(node.stmts@.take(node.stmts@.len() as int) =~= node.stmts@);
    }
    now
}

/// The names tracked on entry to each node.
pub fn entry_facts<R: NameRule>(rule: &R, cfg: &Cfg<Stmt>) -> (entry: Vec<NameSet>)
    requires
        cfg.well_formed(),
    ensures
        entry@.len() == cfg.nodes@.len(),
        forall|i: NodeId|
            0 <= i < cfg.nodes@.len() ==> (#[trigger] entry@[i as int])@ == held_before(
                *rule,
                *cfg,
                i,
            ),
{
    let transfer = |_id: NodeId, node: &CfgNode<Stmt>, held: &NameSet| -> (after: NameSet)
        ensures
            after@ == flow_all(*rule, held@, node.stmts@),
        { run_node(rule, held, node) };
    proof {
        assert(solver::monotone(cfg, transfer)) by {
            assert forall|i: NodeId, f: NameSet, g: NameSet, r: NameSet, s: NameSet|
                0 <= i < cfg.nodes@.len() && f.below(&g) && #[trigger] call_ensures(
                    transfer,
                    (i, &cfg.nodes@[i as int], &f),
                    r,
                ) && #[trigger] call_ensures(
                    transfer,
                    (i, &cfg.nodes@[i as int], &g),
                    s,
                ) implies r.below(&s) by {
                lemma_flow_all_monotone(*rule, f@, g@, cfg.nodes@[i as int].stmts@);
            }
        }
        let all = universe(*rule, cfg.nodes@);
        let inside = |f: NameSet| f@.subset_of(all);
        assert(solver::confined(cfg, transfer, inside, all.len())) by {
            lemma_universe(*rule, cfg.nodes@);
            assert forall|i: NodeId, f: NameSet, r: NameSet|
                0 <= i < cfg.nodes@.len() && inside(f) && #[trigger] call_ensures(
                    transfer,
                    (i, &cfg.nodes@[i as int], &f),
                    r,
                ) implies inside(r) by {
                lemma_flow_all_bounded(*rule, f@, cfg.nodes@[i as int].stmts@);
                assert(names_added(*rule, cfg.nodes@[i as int].stmts@).subset_of(all));
            }
            assert forall|f: NameSet| #[trigger] inside(f) implies f.rank() <= all.len() by {
                f.lemma_finite();
                vstd::set_lib::lemma_len_subset(f@, all);
            }
        }
    }
    let out_facts: Vec<NameSet> = solver::solve(cfg, transfer);
    proof {
        assert forall|i: NodeId| 0 <= i < cfg.nodes@.len() implies (#[trigger] out_facts@[i as int])@
            == held_after(*rule, *cfg, i) by {
            lemma_solution(*rule, cfg, transfer, out_facts@, i);
        }
    }
    let mut entry: Vec<NameSet> = Vec::new();
    let mut i: usize = 0;
    while i < cfg.nodes.len()
        invariant
            cfg.well_formed(),
            0 <= i <= cfg.nodes@.len(),
            entry@.len() == i,
            out_facts@.len() == cfg.nodes@.len(),
            forall|k: NodeId|
                0 <= k < cfg.nodes@.len() ==> (#[trigger] out_facts@[k as int])@ == held_after(
                    *rule,
                    *cfg,
                    k,
                ),
            forall|k: NodeId|
                0 <= k < i ==> (#[trigger] entry@[k as int])@ == held_before(*rule, *cfg, k),
        decreases cfg.nodes.len() - i,
    {
        let preds: Vec<NodeId> = cfg.predecessors(i);
        proof {
            solver::lemma_preds_in_range(cfg, i);
        }
        let fact: NameSet = solver::fold_facts(&out_facts, &preds);
        proof {
            lemma_folds_is_union(out_facts@, preds@, fact);
            assert forall|name: Seq<char>| fact@.contains(name) <==> held_before(
                *rule,
                *cfg,
                i,
            ).contains(name) by {
                lemma_entry(*rule, *cfg, out_facts@, i, name);
            }
            assert(fact@ =~= held_before(*rule, *cfg, i));
        }
        entry.push(fact);
        i += 1;
    }
    entry
}

proof fn lemma_entry<R: NameRule>(
    rule: R,
    cfg: Cfg<Stmt>,
    facts: Seq<NameSet>,
    node: NodeId,
    name: Seq<char>,
)
    requires
        cfg.well_formed(),
        facts.len() == cfg.nodes@.len(),
        forall|k: NodeId|
            0 <= k < cfg.nodes@.len() ==> (#[trigger] facts[k as int])@ == held_after(rule, cfg, k),
    ensures
        held_before(rule, cfg, node).contains(name) <==> exists|k: int|
            0 <= k < cfg.preds(node).len() && facts[(#[trigger] cfg.preds(node)[k]) as int]@.contains(
                name,
            ),
{
    let preds = cfg.preds(node);
    solver::lemma_preds_in_range(&cfg, node);
    if held_before(rule, cfg, node).contains(name) {
        let (from, walk) = choose|from: NodeId, walk: Seq<NodeId>|
            cfg.has_edge(from, node) && #[trigger] carries(rule, cfg, walk, from, name);
        crate::dataflow::cfg::lemma_preds_contains(cfg.edges@, from, node);
        let k = choose|k: int| 0 <= k < preds.len() && preds[k] == from;
        assert(held_after(rule, cfg, from).contains(name));
        assert(facts[preds[k] as int]@.contains(name));
    }
    if exists|k: int|
        0 <= k < preds.len() && facts[(#[trigger] preds[k]) as int]@.contains(name) {
        let k = choose|k: int|
            0 <= k < preds.len() && facts[(#[trigger] preds[k]) as int]@.contains(name);
        let from = preds[k];
        assert(preds.contains(from));
        crate::dataflow::cfg::lemma_preds_contains(cfg.edges@, from, node);
        assert(held_after(rule, cfg, from).contains(name));
        let walk = choose|walk: Seq<NodeId>| carries(rule, cfg, walk, from, name);
        assert(cfg.has_edge(from, node));
        assert(carries(rule, cfg, walk, from, name));
    }
}

/// A walk tracks no more than a fixpoint does where it ends.
proof fn lemma_walk_within<R: NameRule, T: Fn(NodeId, &CfgNode<Stmt>, &NameSet) -> NameSet>(
    rule: R,
    cfg: &Cfg<Stmt>,
    transfer: T,
    facts: Seq<NameSet>,
    walk: Seq<NodeId>,
)
    requires
        cfg.well_formed(),
        solver::is_fixpoint(cfg, transfer, facts),
        forall|i: NodeId, f: NameSet, r: NameSet| #[trigger]
            call_ensures(transfer, (i, &cfg.nodes@[i as int], &f), r) ==> r@ == flow_all(
                rule,
                f@,
                cfg.nodes@[i as int].stmts@,
            ),
        cfg.is_walk(walk),
    ensures
        along(rule, *cfg, walk).subset_of(facts[walk.last() as int]@),
    decreases walk.len(),
{
    let node = walk.last();
    let stmts = cfg.nodes@[node as int].stmts@;
    assert(walk[walk.len() - 1] == node);
    assert(solver::yields(cfg, transfer, facts, node, facts[node as int]));
    let fact = facts[node as int];
    let (before, after) = choose|before: NameSet, after: NameSet|
        #![trigger solver::folds(facts, cfg.preds(node), before), after.below(&fact)]
        {
            &&& solver::folds(facts, cfg.preds(node), before)
            &&& call_ensures(transfer, (node, &cfg.nodes@[node as int], &before), after)
            &&& after.valid()
            &&& after.below(&fact)
            &&& fact.below(&after)
        };
    lemma_folds_is_union(facts, cfg.preds(node), before);
    let shorter = walk.drop_last();
    let held = along(rule, *cfg, shorter);
    assert(held.subset_of(before@)) by {
        if shorter.len() > 0 {
            let from = shorter.last();
            assert(cfg.is_walk(shorter)) by {
                assert forall|k: int| 0 <= k < shorter.len() implies #[trigger] shorter[k]
                    < cfg.nodes@.len() by {
                    assert(shorter[k] == walk[k]);
                }
                assert forall|k: int| 0 <= k < shorter.len() - 1 implies cfg.has_edge(
                    #[trigger] shorter[k],
                    shorter[k + 1],
                ) by {
                    assert(shorter[k] == walk[k] && shorter[k + 1] == walk[k + 1]);
                }
            }
            lemma_walk_within(rule, cfg, transfer, facts, shorter);
            assert(walk[walk.len() - 2] == from);
            assert(cfg.has_edge(from, node));
            crate::dataflow::cfg::lemma_preds_contains(cfg.edges@, from, node);
            let k = choose|k: int| 0 <= k < cfg.preds(node).len() && cfg.preds(node)[k] == from;
            assert forall|name: Seq<char>| held.contains(name) implies before@.contains(name) by {
                assert(facts[cfg.preds(node)[k] as int]@.contains(name));
            }
        }
    }
    lemma_flow_all_monotone(rule, held, before@, stmts);
}

/// A solution tracks after each node exactly what some walk there does.
proof fn lemma_solution<R: NameRule, T: Fn(NodeId, &CfgNode<Stmt>, &NameSet) -> NameSet>(
    rule: R,
    cfg: &Cfg<Stmt>,
    transfer: T,
    facts: Seq<NameSet>,
    node: NodeId,
)
    requires
        cfg.well_formed(),
        solver::is_solution(cfg, transfer, facts),
        node < cfg.nodes@.len(),
        forall|i: NodeId, f: NameSet, r: NameSet| #[trigger]
            call_ensures(transfer, (i, &cfg.nodes@[i as int], &f), r) ==> r@ == flow_all(
                rule,
                f@,
                cfg.nodes@[i as int].stmts@,
            ),
    ensures
        facts[node as int]@ == held_after(rule, *cfg, node),
{
    let holds = |i: NodeId, f: NameSet| f@.subset_of(held_after(rule, *cfg, i));
    assert(solver::inductive(cfg, transfer, holds)) by {
        assert forall|now: Seq<NameSet>, i: NodeId, before: NameSet, after: NameSet|
            {
                &&& now.len() == cfg.nodes@.len()
                &&& solver::all_valid(now)
                &&& forall|k: NodeId| 0 <= k < now.len() ==> holds(k, #[trigger] now[k as int])
                &&& 0 <= i < cfg.nodes@.len()
                &&& #[trigger] solver::folds(now, cfg.preds(i), before)
                &&& #[trigger] call_ensures(
                    transfer,
                    (i, &cfg.nodes@[i as int], &before),
                    after,
                )
            } implies holds(i, after) by {
            assert forall|name: Seq<char>| after@.contains(name) implies held_after(
                rule,
                *cfg,
                i,
            ).contains(name) by {
                lemma_step_has_walk(rule, *cfg, now, i, before, name);
            }
        }
    }
    assert(holds(node, facts[node as int]));
    assert forall|name: Seq<char>| held_after(rule, *cfg, node).contains(
        name,
    ) implies facts[node as int]@.contains(name) by {
        let walk = choose|walk: Seq<NodeId>| carries(rule, *cfg, walk, node, name);
        lemma_walk_within(rule, cfg, transfer, facts, walk);
    }
    assert(facts[node as int]@ =~= held_after(rule, *cfg, node));
}

/// What a node leaves when it starts from what walks to its predecessors
/// establish is established by a walk to the node.
proof fn lemma_step_has_walk<R: NameRule>(
    rule: R,
    cfg: Cfg<Stmt>,
    facts: Seq<NameSet>,
    node: NodeId,
    before: NameSet,
    name: Seq<char>,
)
    requires
        cfg.well_formed(),
        facts.len() == cfg.nodes@.len(),
        node < cfg.nodes@.len(),
        forall|k: NodeId|
            0 <= k < facts.len() ==> (#[trigger] facts[k as int])@.subset_of(
                held_after(rule, cfg, k),
            ),
        solver::folds(facts, cfg.preds(node), before),
        flow_all(rule, before@, cfg.nodes@[node as int].stmts@).contains(name),
    ensures
        held_after(rule, cfg, node).contains(name),
{
    let stmts = cfg.nodes@[node as int].stmts@;
    before.lemma_finite();
    lemma_flow_all_origin(rule, before@, stmts, name);
    if flow_all(rule, Set::empty(), stmts).contains(name) {
        let walk = seq![node];
        assert(walk.drop_last() =~= Seq::empty());
        assert(along(rule, cfg, walk.drop_last()) =~= Set::<Seq<char>>::empty());
        assert(carries(rule, cfg, walk, node, name));
    } else {
        let origin = choose|origin: Seq<char>|
            before@.contains(origin) && #[trigger] flow_all(
                rule,
                Set::empty().insert(origin),
                stmts,
            ).contains(name);
        lemma_folds_is_union(facts, cfg.preds(node), before);
        let k = choose|k: int|
            0 <= k < cfg.preds(node).len() && facts[(#[trigger] cfg.preds(node)[k]) as int]@.contains(
                origin,
            );
        let from = cfg.preds(node)[k];
        solver::lemma_preds_in_range(&cfg, node);
        assert(cfg.preds(node).contains(from));
        crate::dataflow::cfg::lemma_preds_contains(cfg.edges@, from, node);
        assert(held_after(rule, cfg, from).contains(origin));
        let short = choose|walk: Seq<NodeId>| carries(rule, cfg, walk, from, origin);
        let walk = short.push(node);
        assert(cfg.is_walk(walk)) by {
            assert forall|k: int| 0 <= k < walk.len() implies #[trigger] walk[k]
                < cfg.nodes@.len() by {
                if k < short.len() {
                    assert(walk[k] == short[k]);
                }
            }
            assert forall|k: int| 0 <= k < walk.len() - 1 implies cfg.has_edge(
                #[trigger] walk[k],
                walk[k + 1],
            ) by {
                if k < short.len() - 1 {
                    assert(walk[k] == short[k] && walk[k + 1] == short[k + 1]);
                } else {
                    assert(walk[k] == from && walk[k + 1] == node);
                }
            }
        }
        assert(walk.drop_last() =~= short);
        lemma_flow_all_monotone(
            rule,
            Set::empty().insert(origin),
            along(rule, cfg, short),
            stmts,
        );
        assert(carries(rule, cfg, walk, node, name));
    }
}

/// Rules that do the same to every set of names track the same everywhere.
pub proof fn lemma_same_flow<R: NameRule, Q: NameRule>(r: R, q: Q, cfg: Cfg<Stmt>, node: NodeId)
    requires
        forall|held: Set<Seq<char>>, stmt: Stmt| #[trigger] r.flow(held, stmt) == q.flow(held, stmt),
    ensures
        held_before(r, cfg, node) == held_before(q, cfg, node),
{
    assert forall|walk: Seq<NodeId>, from: NodeId, name: Seq<char>| #[trigger]
        carries(r, cfg, walk, from, name) == carries(q, cfg, walk, from, name) by {
        lemma_same_along(r, q, cfg, walk);
    }
    assert forall|name: Seq<char>| held_before(r, cfg, node).contains(name) <==> held_before(
        q,
        cfg,
        node,
    ).contains(name) by {
        if held_before(r, cfg, node).contains(name) {
            let (from, walk) = choose|from: NodeId, walk: Seq<NodeId>|
                cfg.has_edge(from, node) && #[trigger] carries(r, cfg, walk, from, name);
            assert(carries(q, cfg, walk, from, name));
        }
        if held_before(q, cfg, node).contains(name) {
            let (from, walk) = choose|from: NodeId, walk: Seq<NodeId>|
                cfg.has_edge(from, node) && #[trigger] carries(q, cfg, walk, from, name);
            assert(carries(r, cfg, walk, from, name));
        }
    }
    assert(held_before(r, cfg, node) =~= held_before(q, cfg, node));
}

/// Rules that do the same to every set of names leave the same.
pub proof fn lemma_same_flow_all<R: NameRule, Q: NameRule>(
    r: R,
    q: Q,
    held: Set<Seq<char>>,
    stmts: Seq<Stmt>,
)
    requires
        forall|held: Set<Seq<char>>, stmt: Stmt| #[trigger] r.flow(held, stmt) == q.flow(held, stmt),
    ensures
        flow_all(r, held, stmts) == flow_all(q, held, stmts),
    decreases stmts.len(),
{
    if stmts.len() > 0 {
        lemma_same_flow_all(r, q, held, stmts.drop_last());
    }
}

proof fn lemma_same_along<R: NameRule, Q: NameRule>(r: R, q: Q, cfg: Cfg<Stmt>, walk: Seq<NodeId>)
    requires
        forall|held: Set<Seq<char>>, stmt: Stmt| #[trigger] r.flow(held, stmt) == q.flow(held, stmt),
    ensures
        along(r, cfg, walk) == along(q, cfg, walk),
    decreases walk.len(),
{
    if walk.len() > 0 {
        lemma_same_along(r, q, cfg, walk.drop_last());
        lemma_same_flow_all(
            r,
            q,
            along(r, cfg, walk.drop_last()),
            cfg.nodes@[walk.last() as int].stmts@,
        );
    }
}

/// A rule that tracks nothing where nothing was tracked tracks nothing at all.
pub proof fn lemma_never_tracks<R: NameRule>(rule: R, cfg: Cfg<Stmt>, node: NodeId)
    requires
        forall|stmt: Stmt| #[trigger] rule.flow(Set::empty(), stmt) == Set::<Seq<char>>::empty(),
    ensures
        held_before(rule, cfg, node) == Set::<Seq<char>>::empty(),
{
    assert forall|name: Seq<char>| !held_before(rule, cfg, node).contains(name) by {
        if held_before(rule, cfg, node).contains(name) {
            let (from, walk) = choose|from: NodeId, walk: Seq<NodeId>|
                cfg.has_edge(from, node) && #[trigger] carries(rule, cfg, walk, from, name);
            lemma_nothing_along(rule, cfg, walk);
        }
    }
    assert(held_before(rule, cfg, node) =~= Set::<Seq<char>>::empty());
}

/// A rule that tracks nothing where nothing was tracked leaves nothing.
pub proof fn lemma_nothing_flows<R: NameRule>(rule: R, stmts: Seq<Stmt>)
    requires
        forall|stmt: Stmt| #[trigger] rule.flow(Set::empty(), stmt) == Set::<Seq<char>>::empty(),
    ensures
        flow_all(rule, Set::empty(), stmts) == Set::<Seq<char>>::empty(),
    decreases stmts.len(),
{
    if stmts.len() > 0 {
        lemma_nothing_flows(rule, stmts.drop_last());
    }
}

proof fn lemma_nothing_along<R: NameRule>(rule: R, cfg: Cfg<Stmt>, walk: Seq<NodeId>)
    requires
        forall|stmt: Stmt| #[trigger] rule.flow(Set::empty(), stmt) == Set::<Seq<char>>::empty(),
    ensures
        along(rule, cfg, walk) == Set::<Seq<char>>::empty(),
    decreases walk.len(),
{
    if walk.len() > 0 {
        lemma_nothing_along(rule, cfg, walk.drop_last());
        lemma_nothing_flows(rule, cfg.nodes@[walk.last() as int].stmts@);
    }
}

/// A rule that reports at most one hit per statement.
pub trait HitRule: NameRule {
    /// What is reported.
    type Hit: View;

    /// The hit on a statement, given the names tracked before it.
    spec fn hit_on(&self, held: Set<Seq<char>>, stmt: Stmt, node: NodeId, line: u32) -> Option<
        <Self::Hit as View>::V,
    >;

    /// The hit on a statement, given the names tracked before it.
    fn find_hit(&self, held: &NameSet, stmt: &Stmt, node: NodeId, line: u32) -> (hit: Option<
        Self::Hit,
    >)
        ensures
            match hit {
                Some(h) => self.hit_on(held@, *stmt, node, line) == Some(h@),
                None => self.hit_on(held@, *stmt, node, line) is None,
            },
    ;
}

/// The hits on statements, given the names tracked before the first.
pub open spec fn run_hits<R: HitRule>(
    rule: R,
    held: Set<Seq<char>>,
    stmts: Seq<Stmt>,
    node: NodeId,
    line: u32,
) -> Seq<<R::Hit as View>::V>
    decreases stmts.len(),
{
    if stmts.len() == 0 {
        Seq::empty()
    } else {
        let earlier = run_hits(rule, held, stmts.drop_last(), node, line);
        match rule.hit_on(flow_all(rule, held, stmts.drop_last()), stmts.last(), node, line) {
            Some(hit) => earlier.push(hit),
            None => earlier,
        }
    }
}

/// The hits in the first `count` nodes of a graph, in node order and within a
/// node in statement order.
pub open spec fn hits_in<R: HitRule>(rule: R, cfg: Cfg<Stmt>, count: nat) -> Seq<
    <R::Hit as View>::V,
>
    decreases count,
{
    if count == 0 {
        Seq::empty()
    } else {
        let node = (count - 1) as NodeId;
        hits_in(rule, cfg, (count - 1) as nat) + run_hits(
            rule,
            held_before(rule, cfg, node),
            cfg.nodes@[node as int].stmts@,
            node,
            cfg.nodes@[node as int].source_line,
        )
    }
}

/// The hits in a graph, in node order and within a node in statement order.
pub fn scan<R: HitRule>(rule: &R, cfg: &Cfg<Stmt>) -> (hits: Vec<R::Hit>)
    requires
        cfg.well_formed(),
    ensures
        text::views(hits@) == hits_in(*rule, *cfg, cfg.nodes@.len()),
{
    let entry: Vec<NameSet> = entry_facts(rule, cfg);
    let mut hits: Vec<R::Hit> = Vec::new();
    let mut n: usize = 0;
    proof {
        assert(text::views(hits@) =~= Seq::empty());
    }
    while n < cfg.nodes.len()
        invariant
            0 <= n <= cfg.nodes@.len(),
            entry@.len() == cfg.nodes@.len(),
            forall|i: NodeId|
                0 <= i < cfg.nodes@.len() ==> (#[trigger] entry@[i as int])@ == held_before(
                    *rule,
                    *cfg,
                    i,
                ),
            text::views(hits@) == hits_in(*rule, *cfg, n as nat),
        decreases cfg.nodes.len() - n,
    {
        let line: u32 = cfg.nodes[n].source_line;
        let mut held: NameSet = entry[n].dup();
        let ghost before = text::views(hits@);
        let ghost start = held@;
        let ghost stmts = cfg.nodes@[n as int].stmts@;
        let mut k: usize = 0;
        proof {
            assert(before + Seq::empty() =~= before);
        }
        while k < cfg.nodes[n].stmts.len()
            invariant
                n < cfg.nodes@.len(),
                stmts == cfg.nodes@[n as int].stmts@,
                0 <= k <= stmts.len(),
                held@ == flow_all(*rule, start, stmts.take(k as int)),
                text::views(hits@) == before + run_hits(
                    *rule,
                    start,
                    stmts.take(k as int),
                    n,
                    line,
                ),
            decreases stmts.len() - k,
        {
            proof {
                assert(stmts.take(k + 1).drop_last() =~= stmts.take(k as int));
                assert(stmts.take(k + 1).last() == stmts[k as int]);
            }
            match rule.find_hit(&held, &cfg.nodes[n].stmts[k], n, line) {
                Some(hit) => {
                    proof {
                        text::lemma_views_push(hits@, hit);
                    }
                    hits.push(hit);
                },
                None => {},
            }
            proof {
                assert(text::views(hits@) =~= before + run_hits(
                    *rule,
                    start,
                    stmts.take(k + 1),
                    n,
                    line,
                ));
            }
            held = rule.step(&held, &cfg.nodes[n].stmts[k]);
            k += 1;
        }
        proof {
            assert(stmts.take(stmts.len() as int) =~= stmts);
        }
        n += 1;
    }
    hits
}

/// Statement `k` of `node` is reported as `hit`.
pub open spec fn reported<R: HitRule>(
    rule: R,
    cfg: Cfg<Stmt>,
    node: int,
    k: int,
    hit: <R::Hit as View>::V,
) -> bool {
    &&& 0 <= k < cfg.nodes@[node].stmts@.len()
    &&& rule.hit_on(
        held_at(rule, cfg, node as NodeId, k),
        cfg.nodes@[node].stmts@[k],
        node as NodeId,
        cfg.nodes@[node].source_line,
    ) == Some(hit)
}

proof fn lemma_run_reports<R: HitRule>(
    rule: R,
    held: Set<Seq<char>>,
    stmts: Seq<Stmt>,
    node: NodeId,
    line: u32,
    hit: <R::Hit as View>::V,
)
    ensures
        run_hits(rule, held, stmts, node, line).contains(hit) <==> exists|k: int|
            0 <= k < stmts.len() && #[trigger] rule.hit_on(
                flow_all(rule, held, stmts.take(k)),
                stmts[k],
                node,
                line,
            ) == Some(hit),
    decreases stmts.len(),
{
    if stmts.len() > 0 {
        let rest = stmts.drop_last();
        let last = stmts.len() - 1;
        lemma_run_reports(rule, held, rest, node, line, hit);
        assert(stmts.take(last) =~= rest);
        if let Some(h) = rule.hit_on(flow_all(rule, held, rest), stmts.last(), node, line) {
            text::lemma_push_contains(run_hits(rule, held, rest, node, line), h, hit);
        }
        assert forall|k: int| 0 <= k < last implies #[trigger] stmts.take(k) == rest.take(k)
            && stmts[k] == rest[k] by {
            assert(stmts.take(k) =~= rest.take(k));
        }
        if run_hits(rule, held, rest, node, line).contains(hit) {
            let k = choose|k: int|
                0 <= k < rest.len() && #[trigger] rule.hit_on(
                    flow_all(rule, held, rest.take(k)),
                    rest[k],
                    node,
                    line,
                ) == Some(hit);
            assert(rule.hit_on(flow_all(rule, held, stmts.take(k)), stmts[k], node, line) == Some(
                hit,
            ));
        }
        if exists|k: int|
            0 <= k < stmts.len() && #[trigger] rule.hit_on(
                flow_all(rule, held, stmts.take(k)),
                stmts[k],
                node,
                line,
            ) == Some(hit) {
            let k = choose|k: int|
                0 <= k < stmts.len() && #[trigger] rule.hit_on(
                    flow_all(rule, held, stmts.take(k)),
                    stmts[k],
                    node,
                    line,
                ) == Some(hit);
            if k < last {
                assert(rule.hit_on(flow_all(rule, held, rest.take(k)), rest[k], node, line) == Some(
                    hit,
                ));
            }
        }
        assert(rule.hit_on(flow_all(rule, held, stmts.take(last)), stmts[last], node, line)
            == rule.hit_on(flow_all(rule, held, rest), stmts.last(), node, line));
    } else {
        assert(run_hits(rule, held, stmts, node, line).len() == 0);
    }
}

/// A rule reports a statement exactly where it hits on it, given the names that
/// some walk tracks there.
pub proof fn hits_are_what_walks_track<R: HitRule>(
    rule: R,
    cfg: Cfg<Stmt>,
    count: nat,
    hit: <R::Hit as View>::V,
)
    requires
        count <= cfg.nodes@.len(),
        cfg.nodes@.len() <= NodeId::MAX,
    ensures
        hits_in(rule, cfg, count).contains(hit) <==> exists|node: int, k: int|
            0 <= node < count && #[trigger] reported(rule, cfg, node, k, hit),
    decreases count,
{
    if count > 0 {
        let last = count - 1;
        let node = last as NodeId;
        let held = held_before(rule, cfg, node);
        let stmts = cfg.nodes@[last].stmts@;
        let line = cfg.nodes@[last].source_line;
        let before = hits_in(rule, cfg, last as nat);
        hits_are_what_walks_track(rule, cfg, last as nat, hit);
        lemma_run_reports(rule, held, stmts, node, line, hit);
        text::lemma_joined_contains(before, run_hits(rule, held, stmts, node, line), hit);
        if before.contains(hit) {
            let (n, k) = choose|n: int, k: int|
                0 <= n < last && #[trigger] reported(rule, cfg, n, k, hit);
            assert(0 <= n < count && reported(rule, cfg, n, k, hit));
        }
        if run_hits(rule, held, stmts, node, line).contains(hit) {
            let k = choose|k: int|
                0 <= k < stmts.len() && #[trigger] rule.hit_on(
                    flow_all(rule, held, stmts.take(k)),
                    stmts[k],
                    node,
                    line,
                ) == Some(hit);
            assert(reported(rule, cfg, last, k, hit));
        }
        if exists|n: int, k: int| 0 <= n < count && #[trigger] reported(rule, cfg, n, k, hit) {
            let (n, k) = choose|n: int, k: int|
                0 <= n < count && #[trigger] reported(rule, cfg, n, k, hit);
            if n < last {
                assert(reported(rule, cfg, n, k, hit));
            } else {
                assert(rule.hit_on(flow_all(rule, held, stmts.take(k)), stmts[k], node, line)
                    == Some(hit));
            }
        }
    } else {
        assert(hits_in(rule, cfg, count).len() == 0);
    }
}

/// Whatever the one rule tracks, the other tracks.
pub open spec fn tracks_no_more<R: NameRule>(less: R, more: R) -> bool {
    forall|a: Set<Seq<char>>, b: Set<Seq<char>>, stmt: Stmt|
        #![trigger less.flow(a, stmt), more.flow(b, stmt)]
        a.subset_of(b) ==> less.flow(a, stmt).subset_of(more.flow(b, stmt))
}

proof fn lemma_more_flows<R: NameRule>(
    less: R,
    more: R,
    a: Set<Seq<char>>,
    b: Set<Seq<char>>,
    stmts: Seq<Stmt>,
)
    requires
        tracks_no_more(less, more),
        a.subset_of(b),
    ensures
        flow_all(less, a, stmts).subset_of(flow_all(more, b, stmts)),
    decreases stmts.len(),
{
    if stmts.len() > 0 {
        lemma_more_flows(less, more, a, b, stmts.drop_last());
    }
}

proof fn lemma_more_along<R: NameRule>(less: R, more: R, cfg: Cfg<Stmt>, walk: Seq<NodeId>)
    requires
        tracks_no_more(less, more),
    ensures
        along(less, cfg, walk).subset_of(along(more, cfg, walk)),
    decreases walk.len(),
{
    if walk.len() > 0 {
        let rest = walk.drop_last();
        lemma_more_along(less, more, cfg, rest);
        lemma_more_flows(
            less,
            more,
            along(less, cfg, rest),
            along(more, cfg, rest),
            cfg.nodes@[walk.last() as int].stmts@,
        );
    }
}

/// Of two rules, the one that tracks more tracks more everywhere.
pub proof fn lemma_more_at<R: NameRule>(less: R, more: R, cfg: Cfg<Stmt>, node: NodeId, k: int)
    requires
        tracks_no_more(less, more),
    ensures
        held_at(less, cfg, node, k).subset_of(held_at(more, cfg, node, k)),
{
    assert forall|name: Seq<char>| held_before(less, cfg, node).contains(name) implies held_before(
        more,
        cfg,
        node,
    ).contains(name) by {
        let (from, walk) = choose|from: NodeId, walk: Seq<NodeId>|
            cfg.has_edge(from, node) && #[trigger] carries(less, cfg, walk, from, name);
        lemma_more_along(less, more, cfg, walk);
        assert(carries(more, cfg, walk, from, name));
    }
    lemma_more_flows(
        less,
        more,
        held_before(less, cfg, node),
        held_before(more, cfg, node),
        cfg.nodes@[node as int].stmts@.take(k),
    );
}

/// Whatever the one rule hits on, the other hits on where more is tracked.
pub open spec fn hits_no_more<R: HitRule>(less: R, more: R) -> bool {
    forall|a: Set<Seq<char>>, b: Set<Seq<char>>, stmt: Stmt, node: NodeId, line: u32|
        #![trigger less.hit_on(a, stmt, node, line), more.hit_on(b, stmt, node, line)]
        a.subset_of(b) && less.hit_on(a, stmt, node, line) is Some ==> more.hit_on(
            b,
            stmt,
            node,
            line,
        ) == less.hit_on(a, stmt, node, line)
}

/// Of two rules, the one that tracks and hits on more reports more.
pub proof fn more_tracked_means_more_hits<R: HitRule>(
    less: R,
    more: R,
    cfg: Cfg<Stmt>,
    hit: <R::Hit as View>::V,
)
    requires
        tracks_no_more(less, more),
        hits_no_more(less, more),
        cfg.nodes@.len() <= NodeId::MAX,
        hits_in(less, cfg, cfg.nodes@.len()).contains(hit),
    ensures
        hits_in(more, cfg, cfg.nodes@.len()).contains(hit),
{
    let count = cfg.nodes@.len();
    hits_are_what_walks_track(less, cfg, count, hit);
    hits_are_what_walks_track(more, cfg, count, hit);
    let (node, k) = choose|node: int, k: int|
        0 <= node < count && #[trigger] reported(less, cfg, node, k, hit);
    lemma_more_at(less, more, cfg, node as NodeId, k);
    assert(less.hit_on(
        held_at(less, cfg, node as NodeId, k),
        cfg.nodes@[node].stmts@[k],
        node as NodeId,
        cfg.nodes@[node].source_line,
    ) == Some(hit));
    assert(more.hit_on(
        held_at(more, cfg, node as NodeId, k),
        cfg.nodes@[node].stmts@[k],
        node as NodeId,
        cfg.nodes@[node].source_line,
    ) == Some(hit));
    assert(reported(more, cfg, node, k, hit));
}

/// What is tracked before a statement is what was tracked on entry to its node,
/// passed through the statements in front of it one by one.
pub proof fn statements_are_passed_in_order<R: NameRule>(rule: R, cfg: Cfg<Stmt>, node: NodeId, k: int)
    requires
        node < cfg.nodes@.len(),
        0 <= k < cfg.nodes@[node as int].stmts@.len(),
    ensures
        held_at(rule, cfg, node, 0) == held_before(rule, cfg, node),
        held_at(rule, cfg, node, k + 1) == rule.flow(
            held_at(rule, cfg, node, k),
            cfg.nodes@[node as int].stmts@[k],
        ),
{
    let stmts = cfg.nodes@[node as int].stmts@;
    assert(stmts.take(0) =~= Seq::empty());
    assert(stmts.take(k + 1).drop_last() =~= stmts.take(k));
    assert(stmts.take(k + 1).last() == stmts[k]);
}

proof fn lemma_longer_walk(cfg: Cfg<Stmt>, walk: Seq<NodeId>, node: NodeId)
    requires
        cfg.is_walk(walk),
        node < cfg.nodes@.len(),
        cfg.has_edge(walk.last(), node),
    ensures
        cfg.is_walk(walk.push(node)),
{
    let longer = walk.push(node);
    assert forall|k: int| 0 <= k < longer.len() implies #[trigger] longer[k] < cfg.nodes@.len() by {
        if k < walk.len() {
            assert(longer[k] == walk[k]);
        }
    }
    assert forall|k: int| 0 <= k < longer.len() - 1 implies cfg.has_edge(
        #[trigger] longer[k],
        longer[k + 1],
    ) by {
        if k < walk.len() - 1 {
            assert(longer[k] == walk[k] && longer[k + 1] == walk[k + 1]);
        }
    }
}

/// Facts travel along edges: what a node makes of nothing it leaves behind; what
/// it makes of a name that a predecessor leaves behind it leaves behind too; and a
/// name is tracked on entry exactly if some predecessor leaves it behind.
pub proof fn facts_travel_along_edges<R: NameRule>(
    rule: R,
    cfg: Cfg<Stmt>,
    from: NodeId,
    node: NodeId,
    old_name: Seq<char>,
    name: Seq<char>,
)
    requires
        node < cfg.nodes@.len(),
    ensures
        flow_all(rule, Set::empty(), cfg.nodes@[node as int].stmts@).contains(name) ==> held_after(
            rule,
            cfg,
            node,
        ).contains(name),
        cfg.has_edge(from, node) && held_after(rule, cfg, from).contains(old_name) && flow_all(
            rule,
            Set::empty().insert(old_name),
            cfg.nodes@[node as int].stmts@,
        ).contains(name) ==> held_after(rule, cfg, node).contains(name),
        held_after(rule, cfg, node).contains(name) ==> flow_all(
            rule,
            held_before(rule, cfg, node),
            cfg.nodes@[node as int].stmts@,
        ).contains(name),
        held_before(rule, cfg, node).contains(name) <==> exists|p: NodeId|
            cfg.has_edge(p, node) && #[trigger] held_after(rule, cfg, p).contains(name),
{
    let stmts = cfg.nodes@[node as int].stmts@;
    if flow_all(rule, Set::empty(), stmts).contains(name) {
        let walk = seq![node];
        assert(walk.drop_last() =~= Seq::empty());
        assert(along(rule, cfg, walk.drop_last()) =~= Set::<Seq<char>>::empty());
        assert(carries(rule, cfg, walk, node, name));
    }
    if cfg.has_edge(from, node) && held_after(rule, cfg, from).contains(old_name) && flow_all(
        rule,
        Set::empty().insert(old_name),
        stmts,
    ).contains(name) {
        let short = choose|walk: Seq<NodeId>| carries(rule, cfg, walk, from, old_name);
        lemma_longer_walk(cfg, short, node);
        let walk = short.push(node);
        assert(walk.drop_last() =~= short);
        lemma_flow_all_monotone(
            rule,
            Set::empty().insert(old_name),
            along(rule, cfg, short),
            stmts,
        );
        assert(carries(rule, cfg, walk, node, name));
    }
    if held_after(rule, cfg, node).contains(name) {
        let walk = choose|walk: Seq<NodeId>| carries(rule, cfg, walk, node, name);
        let short = walk.drop_last();
        let held = along(rule, cfg, short);
        assert forall|x: Seq<char>| held.contains(x) implies held_before(rule, cfg, node).contains(
            x,
        ) by {
            if short.len() > 0 {
                assert forall|k: int| 0 <= k < short.len() implies #[trigger] short[k]
                    < cfg.nodes@.len() by {
                    assert(short[k] == walk[k]);
                }
                assert forall|k: int| 0 <= k < short.len() - 1 implies cfg.has_edge(
                    #[trigger] short[k],
                    short[k + 1],
                ) by {
                    assert(short[k] == walk[k] && short[k + 1] == walk[k + 1]);
                }
                assert(walk[walk.len() - 2] == short.last());
                assert(walk[walk.len() - 2 + 1] == node);
                assert(cfg.has_edge(short.last(), node));
                assert(carries(rule, cfg, short, short.last(), x));
            }
        }
        lemma_flow_all_monotone(rule, held, held_before(rule, cfg, node), stmts);
        assert(walk.last() == node);
    }
    if held_before(rule, cfg, node).contains(name) {
        let (p, walk) = choose|p: NodeId, walk: Seq<NodeId>|
            cfg.has_edge(p, node) && #[trigger] carries(rule, cfg, walk, p, name);
        assert(held_after(rule, cfg, p).contains(name));
    }
    if exists|p: NodeId| cfg.has_edge(p, node) && #[trigger] held_after(rule, cfg, p).contains(name) {
        let p = choose|p: NodeId|
            cfg.has_edge(p, node) && #[trigger] held_after(rule, cfg, p).contains(name);
        let walk = choose|walk: Seq<NodeId>| carries(rule, cfg, walk, p, name);
        assert(carries(rule, cfg, walk, p, name));
    }
}

/// The effect of statements is the effect of each after the other.
pub proof fn runs_of_statements_compose<R: NameRule>(
    rule: R,
    held: Set<Seq<char>>,
    a: Seq<Stmt>,
    b: Seq<Stmt>,
    stmt: Stmt,
)
    ensures
        flow_all(rule, held, Seq::<Stmt>::empty()) == held,
        flow_all(rule, held, seq![stmt]) == rule.flow(held, stmt),
        flow_all(rule, held, a + b) == flow_all(rule, flow_all(rule, held, a), b),
    decreases b.len(),
{
    let one = seq![stmt];
    assert(one.drop_last() =~= Seq::<Stmt>::empty());
    assert(flow_all(rule, held, one.drop_last()) == held);
    if b.len() == 0 {
        assert(a + b =~= a);
    } else {
        runs_of_statements_compose(rule, held, a, b.drop_last(), stmt);
        assert((a + b).drop_last() =~= a + b.drop_last());
        assert((a + b).last() == b.last());
    }
}

} // verus!
