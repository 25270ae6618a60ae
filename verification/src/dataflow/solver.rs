//! A forward worklist fixpoint solver over a `Cfg`, generic over any
//! `Lattice` and a per-node transfer function.

use std::collections::VecDeque;

use vstd::prelude::*;
use vstd::std_specs::cmp::PartialEqSpec;

use crate::dataflow::cfg::{Cfg, CfgNode, NodeId};
use crate::dataflow::lattice::Lattice;

verus! {

/// Every one of the facts is properly represented.
pub open spec fn all_valid<F: Lattice>(facts: Seq<F>) -> bool {
    forall|i: int| 0 <= i < facts.len() ==> (#[trigger] facts[i]).valid()
}

/// Of each node, what `lower` says `upper` says too.
pub open spec fn all_below<F: Lattice>(lower: Seq<F>, upper: Seq<F>) -> bool {
    &&& lower.len() == upper.len()
    &&& forall|i: int| 0 <= i < lower.len() ==> (#[trigger] lower[i]).below(&upper[i])
}

/// `steps` starts at a bottom and merges the facts of `preds` one by one.
pub open spec fn merges<F: Lattice>(facts: Seq<F>, preds: Seq<NodeId>, steps: Seq<F>) -> bool {
    &&& steps.len() == preds.len() + 1
    &&& all_valid(steps)
    &&& steps[0].is_bottom()
    &&& forall|k: int|
        0 <= k < preds.len() ==> steps[k].joins(
            &facts[(#[trigger] preds[k]) as int],
            &steps[k + 1],
        )
}

/// `fact` is the merge, from bottom and in this order, of the facts of `preds`.
pub open spec fn folds<F: Lattice>(facts: Seq<F>, preds: Seq<NodeId>, fact: F) -> bool {
    exists|steps: Seq<F>| #[trigger] merges(facts, preds, steps) && steps.last() == fact
}

/// Some run of node `i` whose in-fact is the merge of its predecessors' facts
/// leaves exactly `fact`.
pub open spec fn yields<S, F: Lattice, T: Fn(NodeId, &CfgNode<S>, &F) -> F>(
    cfg: &Cfg<S>,
    transfer: T,
    facts: Seq<F>,
    i: NodeId,
    fact: F,
) -> bool {
    exists|before: F, after: F|
        #![trigger folds(facts, cfg.preds(i), before), after.below(&fact)]
        {
            &&& folds(facts, cfg.preds(i), before)
            &&& call_ensures(transfer, (i, &cfg.nodes@[i as int], &before), after)
            &&& after.valid()
            &&& after.below(&fact)
            &&& fact.below(&after)
        }
}

/// Some run of node `i` whose in-fact is the merge of its predecessors' facts
/// leaves no more than `facts` has for it.
pub open spec fn absorbs<S, F: Lattice, T: Fn(NodeId, &CfgNode<S>, &F) -> F>(
    cfg: &Cfg<S>,
    transfer: T,
    facts: Seq<F>,
    i: NodeId,
) -> bool {
    exists|before: F, after: F|
        #![trigger folds(facts, cfg.preds(i), before), after.below(&facts[i as int])]
        {
            &&& folds(facts, cfg.preds(i), before)
            &&& call_ensures(transfer, (i, &cfg.nodes@[i as int], &before), after)
            &&& after.valid()
            &&& after.below(&facts[i as int])
        }
}

/// One properly represented fact per node, each the one that its node leaves
/// when it starts from the merge of its predecessors' facts.
pub open spec fn is_fixpoint<S, F: Lattice, T: Fn(NodeId, &CfgNode<S>, &F) -> F>(
    cfg: &Cfg<S>,
    transfer: T,
    facts: Seq<F>,
) -> bool {
    &&& facts.len() == cfg.nodes@.len()
    &&& all_valid(facts)
    &&& forall|i: NodeId|
        0 <= i < cfg.nodes@.len() ==> #[trigger] yields(
            cfg,
            transfer,
            facts,
            i,
            facts[i as int],
        )
}

/// One properly represented fact per node, none of which running the node once
/// more could exceed. Every fixpoint is one.
pub open spec fn is_post_fixpoint<S, F: Lattice, T: Fn(NodeId, &CfgNode<S>, &F) -> F>(
    cfg: &Cfg<S>,
    transfer: T,
    facts: Seq<F>,
) -> bool {
    &&& facts.len() == cfg.nodes@.len()
    &&& all_valid(facts)
    &&& forall|i: NodeId|
        0 <= i < cfg.nodes@.len() ==> #[trigger] absorbs(cfg, transfer, facts, i)
}

/// `holds` is true of a node that has not run, and stays true when a node runs
/// on the merge of facts of which it is true.
pub open spec fn inductive<S, F: Lattice, T: Fn(NodeId, &CfgNode<S>, &F) -> F>(
    cfg: &Cfg<S>,
    transfer: T,
    holds: spec_fn(NodeId, F) -> bool,
) -> bool {
    &&& forall|i: NodeId, f: F| f.valid() && f.is_bottom() ==> #[trigger] holds(i, f)
    &&& forall|facts: Seq<F>, i: NodeId, before: F, after: F|
        {
            &&& facts.len() == cfg.nodes@.len()
            &&& all_valid(facts)
            &&& forall|k: NodeId| 0 <= k < facts.len() ==> holds(k, #[trigger] facts[k as int])
            &&& 0 <= i < cfg.nodes@.len()
            &&& #[trigger] folds(facts, cfg.preds(i), before)
            &&& #[trigger] call_ensures(
                transfer,
                (i, &cfg.nodes@[i as int], &before),
                after,
            )
        } ==> holds(i, after)
}

/// `facts` is a fixpoint, and true of it is everything that is true at the
/// start and that running a node preserves.
pub open spec fn is_solution<S, F: Lattice, T: Fn(NodeId, &CfgNode<S>, &F) -> F>(
    cfg: &Cfg<S>,
    transfer: T,
    facts: Seq<F>,
) -> bool {
    &&& is_fixpoint(cfg, transfer, facts)
    &&& forall|holds: spec_fn(NodeId, F) -> bool|
        #[trigger] inductive(cfg, transfer, holds) ==> forall|i: NodeId|
            0 <= i < facts.len() ==> holds(i, #[trigger] facts[i as int])
}

/// The transfer function runs on every node and every fact, keeps facts
/// properly represented, and never leaves less for having been given more.
pub open spec fn monotone<S, F: Lattice, T: Fn(NodeId, &CfgNode<S>, &F) -> F>(
    cfg: &Cfg<S>,
    transfer: T,
) -> bool {
    &&& forall|i: NodeId, f: F|
        0 <= i < cfg.nodes@.len() && f.valid() ==> #[trigger] call_requires(
            transfer,
            (i, &cfg.nodes@[i as int], &f),
        )
    &&& forall|i: NodeId, f: F, r: F|
        0 <= i < cfg.nodes@.len() && f.valid() && #[trigger] call_ensures(
            transfer,
            (i, &cfg.nodes@[i as int], &f),
            r,
        ) ==> r.valid()
    &&& forall|i: NodeId, f: F, g: F, r: F, s: F|
        0 <= i < cfg.nodes@.len() && f.valid() && g.valid() && f.below(&g)
            && #[trigger] call_ensures(transfer, (i, &cfg.nodes@[i as int], &f), r)
            && #[trigger] call_ensures(transfer, (i, &cfg.nodes@[i as int], &g), s) ==> r.below(
            &s,
        )
}

/// The facts in `inside` are closed under everything the solver does to them,
/// and none of them has a rank above `bound`.
pub open spec fn confined<S, F: Lattice, T: Fn(NodeId, &CfgNode<S>, &F) -> F>(
    cfg: &Cfg<S>,
    transfer: T,
    inside: spec_fn(F) -> bool,
    bound: nat,
) -> bool {
    &&& forall|f: F| f.valid() && #[trigger] f.is_bottom() ==> inside(f)
    &&& forall|a: F, b: F, m: F|
        a.valid() && b.valid() && m.valid() && inside(a) && inside(b) && #[trigger] a.joins(&b, &m)
            ==> inside(m)
    &&& forall|i: NodeId, f: F, r: F|
        0 <= i < cfg.nodes@.len() && f.valid() && inside(f) && #[trigger] call_ensures(
            transfer,
            (i, &cfg.nodes@[i as int], &f),
            r,
        ) ==> inside(r)
    &&& forall|f: F| f.valid() && #[trigger] inside(f) ==> f.rank() <= bound
}

/// Facts cannot grow for ever: those that can arise have a greatest rank.
pub open spec fn bounded<S, F: Lattice, T: Fn(NodeId, &CfgNode<S>, &F) -> F>(
    cfg: &Cfg<S>,
    transfer: T,
) -> bool {
    exists|inside: spec_fn(F) -> bool, bound: nat| confined(cfg, transfer, inside, bound)
}

/// The sum of the ranks of the facts.
spec fn total_rank<F: Lattice>(facts: Seq<F>) -> nat
    decreases facts.len(),
{
    if facts.len() == 0 {
        0
    } else {
        total_rank(facts.drop_last()) + facts.last().rank()
    }
}

proof fn lemma_total_rank_bound<F: Lattice>(facts: Seq<F>, bound: nat)
    requires
        forall|i: int| 0 <= i < facts.len() ==> (#[trigger] facts[i]).rank() <= bound,
    ensures
        total_rank(facts) <= facts.len() * bound,
    decreases facts.len(),
{
    if facts.len() > 0 {
        lemma_total_rank_bound(facts.drop_last(), bound);
        assert((facts.len() - 1) * bound + bound == facts.len() * bound) by (nonlinear_arith);
    }
}

proof fn lemma_total_rank_update<F: Lattice>(facts: Seq<F>, i: int, f: F)
    requires
        0 <= i < facts.len(),
    ensures
        total_rank(facts.update(i, f)) == total_rank(facts) - facts[i].rank() + f.rank(),
    decreases facts.len(),
{
    if i == facts.len() - 1 {
        assert(facts.update(i, f).drop_last() =~= facts.drop_last());
    } else {
        assert(facts.update(i, f).drop_last() =~= facts.drop_last().update(i, f));
        lemma_total_rank_update(facts.drop_last(), i, f);
    }
}

/// The merge of predecessors depends on their facts alone.
proof fn lemma_folds_frame<F: Lattice>(facts: Seq<F>, facts2: Seq<F>, preds: Seq<NodeId>, fact: F)
    requires
        folds(facts, preds, fact),
        forall|k: int| 0 <= k < preds.len() ==> facts[(#[trigger] preds[k]) as int]
            == facts2[preds[k] as int],
    ensures
        folds(facts2, preds, fact),
{
    let steps = choose|steps: Seq<F>| #[trigger] merges(facts, preds, steps) && steps.last() == fact;
    assert(merges(facts2, preds, steps));
}

proof fn lemma_merges_monotone<F: Lattice>(
    facts: Seq<F>,
    facts2: Seq<F>,
    preds: Seq<NodeId>,
    steps: Seq<F>,
    steps2: Seq<F>,
    k: int,
)
    requires
        all_valid(facts),
        all_valid(facts2),
        all_below(facts, facts2),
        forall|k: int| 0 <= k < preds.len() ==> (#[trigger] preds[k]) < facts.len(),
        merges(facts, preds, steps),
        merges(facts2, preds, steps2),
        0 <= k < steps.len(),
    ensures
        steps[k].below(&steps2[k]),
    decreases k,
{
    if k == 0 {
        F::bottom_is_least(steps[0], steps2[0]);
    } else {
        lemma_merges_monotone(facts, facts2, preds, steps, steps2, k - 1);
        let p = preds[k - 1] as int;
        assert(facts[p].below(&facts2[p]));
        F::join_is_monotone(steps[k - 1], facts[p], steps[k], steps2[k - 1], facts2[p], steps2[k]);
    }
}

/// More at every predecessor merges to more.
pub proof fn lemma_folds_monotone<F: Lattice>(
    facts: Seq<F>,
    facts2: Seq<F>,
    preds: Seq<NodeId>,
    fact: F,
    fact2: F,
)
    requires
        all_valid(facts),
        all_valid(facts2),
        all_below(facts, facts2),
        forall|k: int| 0 <= k < preds.len() ==> (#[trigger] preds[k]) < facts.len(),
        folds(facts, preds, fact),
        folds(facts2, preds, fact2),
    ensures
        fact.below(&fact2),
{
    let steps = choose|steps: Seq<F>| #[trigger] merges(facts, preds, steps) && steps.last() == fact;
    let steps2 = choose|steps: Seq<F>|
        #[trigger] merges(facts2, preds, steps) && steps.last() == fact2;
    lemma_merges_monotone(facts, facts2, preds, steps, steps2, steps.len() - 1);
}

proof fn lemma_merges_inside<S, F: Lattice, T: Fn(NodeId, &CfgNode<S>, &F) -> F>(
    cfg: &Cfg<S>,
    transfer: T,
    inside: spec_fn(F) -> bool,
    bound: nat,
    facts: Seq<F>,
    preds: Seq<NodeId>,
    steps: Seq<F>,
    k: int,
)
    requires
        confined(cfg, transfer, inside, bound),
        all_valid(facts),
        forall|i: int| 0 <= i < facts.len() ==> inside(#[trigger] facts[i]),
        forall|k: int| 0 <= k < preds.len() ==> (#[trigger] preds[k]) < facts.len(),
        merges(facts, preds, steps),
        0 <= k < steps.len(),
    ensures
        inside(steps[k]),
    decreases k,
{
    if k > 0 {
        lemma_merges_inside(cfg, transfer, inside, bound, facts, preds, steps, k - 1);
        let p = preds[k - 1] as int;
        assert(inside(facts[p]));
        assert(steps[k - 1].joins(&facts[p], &steps[k]));
    }
}

/// A confined set of facts holds the merge of its members.
proof fn lemma_folds_inside<S, F: Lattice, T: Fn(NodeId, &CfgNode<S>, &F) -> F>(
    cfg: &Cfg<S>,
    transfer: T,
    inside: spec_fn(F) -> bool,
    bound: nat,
    facts: Seq<F>,
    preds: Seq<NodeId>,
    fact: F,
)
    requires
        confined(cfg, transfer, inside, bound),
        all_valid(facts),
        forall|i: int| 0 <= i < facts.len() ==> inside(#[trigger] facts[i]),
        forall|k: int| 0 <= k < preds.len() ==> (#[trigger] preds[k]) < facts.len(),
        folds(facts, preds, fact),
    ensures
        fact.valid(),
        inside(fact),
{
    let steps = choose|steps: Seq<F>| #[trigger] merges(facts, preds, steps) && steps.last() == fact;
    lemma_merges_inside(cfg, transfer, inside, bound, facts, preds, steps, steps.len() - 1);
}

/// Predecessors are nodes of the graph.
pub proof fn lemma_preds_in_range<S>(cfg: &Cfg<S>, node: NodeId)
    requires
        cfg.well_formed(),
    ensures
        forall|k: int| 0 <= k < cfg.preds(node).len() ==> #[trigger] cfg.preds(node)[k] < cfg.nodes@.len(),
{
    assert forall|k: int| 0 <= k < cfg.preds(node).len() implies #[trigger] cfg.preds(node)[k]
        < cfg.nodes@.len() by {
        assert(cfg.preds(node).contains(cfg.preds(node)[k]));
        crate::dataflow::cfg::lemma_preds_contains(cfg.edges@, cfg.preds(node)[k], node);
    }
}

/// Successors are nodes of the graph.
proof fn lemma_succs_in_range<S>(cfg: &Cfg<S>, node: NodeId)
    requires
        cfg.well_formed(),
    ensures
        forall|k: int| 0 <= k < cfg.succs(node).len() ==> #[trigger] cfg.succs(node)[k] < cfg.nodes@.len(),
{
    assert forall|k: int| 0 <= k < cfg.succs(node).len() implies #[trigger] cfg.succs(node)[k]
        < cfg.nodes@.len() by {
        assert(cfg.succs(node).contains(cfg.succs(node)[k]));
        crate::dataflow::cfg::lemma_succs_contains(cfg.edges@, node, cfg.succs(node)[k]);
    }
}

/// The merge, from bottom, of the facts of `preds`, in this order.
pub fn fold_facts<F: Lattice>(facts: &Vec<F>, preds: &Vec<NodeId>) -> (fact: F)
    requires
        all_valid(facts@),
        forall|k: int| 0 <= k < preds@.len() ==> #[trigger] preds@[k] < facts@.len(),
    ensures
        folds(facts@, preds@, fact),
{
    let mut acc: F = F::bottom();
    let ghost mut steps: Seq<F> = seq![acc];
    let mut k: usize = 0;
    while k < preds.len()
        invariant
            0 <= k <= preds@.len(),
            all_valid(facts@),
            forall|k: int| 0 <= k < preds@.len() ==> #[trigger] preds@[k] < facts@.len(),
            merges(facts@, preds@.take(k as int), steps),
            steps.last() == acc,
        decreases preds.len() - k,
    {
        let next: F = acc.join(&facts[preds[k]]);
        proof {
            let shorter = preds@.take(k as int);
            let longer = preds@.take(k + 1);
            let more = steps.push(next);
            assert forall|j: int| 0 <= j < longer.len() implies more[j].joins(
                &facts@[(#[trigger] longer[j]) as int],
                &more[j + 1],
            ) by {
                if j < k {
                    assert(shorter[j] == longer[j]);
                }
            }
            steps = more;
        }
        acc = next;
        k += 1;
    }
    proof {
        assert(preds@.take(preds@.len() as int) =~= preds@);
    }
    acc
}

/// Runs the transfer function to a fixpoint and returns the fact at the exit
/// of each node, after that node's statements have been applied. A node's
/// in-fact is the merge of its predecessors' out-facts, so a node without
/// predecessors starts from bottom. The result is the least such family of
/// facts (see `solution_is_least`).
pub fn solve<S, F: Lattice, T: Fn(NodeId, &CfgNode<S>, &F) -> F>(
    cfg: &Cfg<S>,
    transfer: T,
) -> (facts: Vec<F>)
    requires
        cfg.well_formed(),
        monotone(cfg, transfer),
        bounded(cfg, transfer),
    ensures
        is_solution(cfg, transfer, facts@),
{
    let n: usize = cfg.nodes.len();
    let ghost (inside, bound) = choose|inside: spec_fn(F) -> bool, bound: nat|
        confined(cfg, transfer, inside, bound);
    let mut out_facts: Vec<F> = Vec::new();
    let mut worklist: VecDeque<NodeId> = VecDeque::new();
    let mut queued: Vec<bool> = Vec::new();
    let mut fill: usize = 0;
    while fill < n
        invariant
            n == cfg.nodes@.len(),
            fill <= n,
            out_facts@.len() == fill,
            worklist@.len() == fill,
            queued@.len() == fill,
            forall|i: int| 0 <= i < fill ==> (#[trigger] out_facts@[i]).valid() && out_facts@[i].is_bottom(),
            forall|i: int| 0 <= i < fill ==> #[trigger] worklist@[i] == i,
            forall|i: int| 0 <= i < fill ==> #[trigger] queued@[i],
        decreases n - fill,
    {
        out_facts.push(F::bottom());
        worklist.push_back(fill);
        queued.push(true);
        fill += 1;
    }
    // What the facts were when a node was last run, per node.
    let ghost mut bases: Seq<Seq<F>> = Seq::new(n as nat, |i: int| out_facts@);
    proof {
        assert forall|i: NodeId| 0 <= i < n implies #[trigger] worklist@.contains(i) by {
            assert(worklist@[i as int] == i);
        }
        assert(all_below(out_facts@, out_facts@)) by {
            assert forall|i: int| 0 <= i < n implies (#[trigger] out_facts@[i]).below(
                &out_facts@[i],
            ) by {
                F::below_reflexive(out_facts@[i]);
            }
        }
    }
    while worklist.len() > 0
        invariant
            n == cfg.nodes@.len(),
            cfg.well_formed(),
            monotone(cfg, transfer),
            confined(cfg, transfer, inside, bound),
            out_facts@.len() == n,
            queued@.len() == n,
            bases.len() == n,
            all_valid(out_facts@),
            forall|i: int| 0 <= i < n ==> inside(#[trigger] out_facts@[i]),
            forall|k: int| 0 <= k < worklist@.len() ==> #[trigger] worklist@[k] < n,
            forall|i: NodeId| 0 <= i < n && #[trigger] queued@[i as int] ==> worklist@.contains(i),
            forall|i: NodeId|
                0 <= i < n ==> {
                    &&& all_valid(#[trigger] bases[i as int])
                    &&& all_below(bases[i as int], out_facts@)
                    &&& out_facts@[i as int].is_bottom() || yields(
                        cfg,
                        transfer,
                        bases[i as int],
                        i,
                        out_facts@[i as int],
                    )
                },
            forall|i: NodeId|
                0 <= i < n && !#[trigger] queued@[i as int] ==> yields(
                    cfg,
                    transfer,
                    out_facts@,
                    i,
                    out_facts@[i as int],
                ),
            forall|holds: spec_fn(NodeId, F) -> bool|
                #[trigger] inductive(cfg, transfer, holds) ==> forall|i: NodeId|
                    0 <= i < n ==> holds(i, #[trigger] out_facts@[i as int]),
        decreases n * bound - total_rank(out_facts@), worklist@.len(),
    {
        let ghost facts0 = out_facts@;
        let ghost work0 = worklist@;
        let node: NodeId = match worklist.pop_front() {
            Some(node) => node,
            None => 0,
        };
        proof {
            assert(work0[0] == node);
            assert forall|i: NodeId| 0 <= i < n && i != node && #[trigger] queued@[i as int] implies worklist@.contains(i) by {
                let k = choose|k: int| 0 <= k < work0.len() && work0[k] == i;
                assert(worklist@[k - 1] == i);
            }
            assert forall|k: int| 0 <= k < worklist@.len() implies #[trigger] worklist@[k] < n by {
                assert(worklist@[k] == work0[k + 1]);
            }
        }
        queued[node] = false;
        let preds: Vec<NodeId> = cfg.predecessors(node);
        proof {
            lemma_preds_in_range(cfg, node);
        }
        let in_fact: F = fold_facts(&out_facts, &preds);
        let new_out: F = transfer(node, &cfg.nodes[node], &in_fact);
        proof {
            lemma_run(cfg, transfer, facts0, bases[node as int], node, in_fact, new_out, inside, bound);
            F::eq_is_mutual_below(new_out, facts0[node as int]);
            F::below_reflexive(new_out);
        }
        if new_out != out_facts[node] {
            let ghost queued0 = queued@;
            let ghost bases0 = bases;
            proof {
                F::rank_climbs(facts0[node as int], new_out);
                lemma_total_rank_update(facts0, node as int, new_out);
                lemma_total_rank_bound(facts0, bound);
                bases = bases.update(node as int, facts0);
            }
            out_facts.set(node, new_out);
            proof {
                lemma_after_update(cfg, transfer, facts0, out_facts@, bases0, bases, queued0, node, in_fact, new_out, inside, bound);
                lemma_total_rank_bound(out_facts@, bound);
            }
            let succs: Vec<NodeId> = cfg.successors(node);
            proof {
                lemma_succs_in_range(cfg, node);
            }
            let mut s: usize = 0;
            while s < succs.len()
                invariant
                    n == cfg.nodes@.len(),
                    cfg.well_formed(),
                    succs@ == cfg.succs(node),
                    forall|k: int| 0 <= k < succs@.len() ==> #[trigger] succs@[k] < n,
                    0 <= s <= succs@.len(),
                    out_facts@.len() == n,
                    queued@.len() == n,
                    forall|k: int| 0 <= k < worklist@.len() ==> #[trigger] worklist@[k] < n,
                    forall|i: NodeId| 0 <= i < n && #[trigger] queued@[i as int] ==> worklist@.contains(i),
                    forall|k: int| 0 <= k < s ==> queued@[#[trigger] succs@[k] as int],
                    forall|i: NodeId|
                        0 <= i < n && !#[trigger] queued@[i as int] && !cfg.succs(node).contains(i) ==> yields(
                            cfg,
                            transfer,
                            out_facts@,
                            i,
                            out_facts@[i as int],
                        ),
                decreases succs.len() - s,
            {
                let succ: NodeId = succs[s];
                if !queued[succ] {
                    let ghost before = worklist@;
                    let ghost marks = queued@;
                    queued[succ] = true;
                    worklist.push_back(succ);
                    proof {
                        assert forall|i: NodeId| 0 <= i < n && #[trigger] queued@[i as int] implies worklist@.contains(i) by {
                            if i == succ {
                                assert(worklist@[before.len() as int] == succ);
                            } else {
                                assert(marks[i as int]);
                                let k = choose|k: int| 0 <= k < before.len() && before[k] == i;
                                assert(worklist@[k] == i);
                            }
                        }
                    }
                }
                s += 1;
            }
            proof {
                assert forall|i: NodeId| 0 <= i < n && !#[trigger] queued@[i as int] implies yields(
                    cfg,
                    transfer,
                    out_facts@,
                    i,
                    out_facts@[i as int],
                ) by {
                    if cfg.succs(node).contains(i) {
                        let k = choose|k: int| 0 <= k < succs@.len() && succs@[k] == i;
                        assert(queued@[succs@[k] as int]);
                    }
                }
            }
        } else {
            proof {
                assert(yields(cfg, transfer, out_facts@, node, out_facts@[node as int]));
                lemma_total_rank_bound(out_facts@, bound);
            }
        }
    }
    proof {
        assert forall|i: NodeId| 0 <= i < n implies #[trigger] yields(
            cfg,
            transfer,
            out_facts@,
            i,
            out_facts@[i as int],
        ) by {
            assert(!worklist@.contains(i));
            assert(!queued@[i as int]);
        }
    }
    out_facts
}

/// What running a node gives: a fact that is properly represented, inside the
/// confined set, and no less than the node had.
proof fn lemma_run<S, F: Lattice, T: Fn(NodeId, &CfgNode<S>, &F) -> F>(
    cfg: &Cfg<S>,
    transfer: T,
    facts: Seq<F>,
    base: Seq<F>,
    node: NodeId,
    in_fact: F,
    new_out: F,
    inside: spec_fn(F) -> bool,
    bound: nat,
)
    requires
        cfg.well_formed(),
        monotone(cfg, transfer),
        confined(cfg, transfer, inside, bound),
        facts.len() == cfg.nodes@.len(),
        node < cfg.nodes@.len(),
        all_valid(facts),
        forall|i: int| 0 <= i < facts.len() ==> inside(#[trigger] facts[i]),
        all_valid(base),
        all_below(base, facts),
        facts[node as int].is_bottom() || yields(cfg, transfer, base, node, facts[node as int]),
        folds(facts, cfg.preds(node), in_fact),
        call_ensures(transfer, (node, &cfg.nodes@[node as int], &in_fact), new_out),
    ensures
        in_fact.valid(),
        new_out.valid(),
        inside(new_out),
        facts[node as int].below(&new_out),
        yields(cfg, transfer, facts, node, new_out),
        new_out.below(&facts[node as int]) ==> yields(cfg, transfer, facts, node, facts[node as int]),
{
    lemma_preds_in_range(cfg, node);
    lemma_folds_inside(cfg, transfer, inside, bound, facts, cfg.preds(node), in_fact);
    F::below_reflexive(new_out);
    if facts[node as int].is_bottom() {
        F::bottom_is_least(facts[node as int], new_out);
    } else {
        let (before, after) = choose|before: F, after: F|
            #![trigger folds(base, cfg.preds(node), before), after.below(&facts[node as int])]
            {
                &&& folds(base, cfg.preds(node), before)
                &&& call_ensures(transfer, (node, &cfg.nodes@[node as int], &before), after)
                &&& after.valid()
                &&& after.below(&facts[node as int])
                &&& facts[node as int].below(&after)
            };
        lemma_folds_monotone(base, facts, cfg.preds(node), before, in_fact);
        F::below_transitive(facts[node as int], after, new_out);
    }
}

/// Storing what a node gave keeps what the solver knows of every node, but
/// that the node's successors may have to be run again.
proof fn lemma_after_update<S, F: Lattice, T: Fn(NodeId, &CfgNode<S>, &F) -> F>(
    cfg: &Cfg<S>,
    transfer: T,
    facts0: Seq<F>,
    facts: Seq<F>,
    bases0: Seq<Seq<F>>,
    bases: Seq<Seq<F>>,
    queued: Seq<bool>,
    node: NodeId,
    in_fact: F,
    new_out: F,
    inside: spec_fn(F) -> bool,
    bound: nat,
)
    requires
        cfg.well_formed(),
        node < cfg.nodes@.len(),
        facts0.len() == cfg.nodes@.len(),
        bases0.len() == cfg.nodes@.len(),
        queued.len() == cfg.nodes@.len(),
        all_valid(facts0),
        new_out.valid(),
        inside(new_out),
        forall|i: int| 0 <= i < facts0.len() ==> inside(#[trigger] facts0[i]),
        facts0[node as int].below(&new_out),
        facts == facts0.update(node as int, new_out),
        bases == bases0.update(node as int, facts0),
        folds(facts0, cfg.preds(node), in_fact),
        call_ensures(transfer, (node, &cfg.nodes@[node as int], &in_fact), new_out),
        forall|i: NodeId|
            0 <= i < cfg.nodes@.len() ==> {
                &&& all_valid(#[trigger] bases0[i as int])
                &&& all_below(bases0[i as int], facts0)
                &&& facts0[i as int].is_bottom() || yields(
                    cfg,
                    transfer,
                    bases0[i as int],
                    i,
                    facts0[i as int],
                )
            },
        forall|i: NodeId|
            0 <= i < cfg.nodes@.len() && i != node && !#[trigger] queued[i as int] ==> yields(
                cfg,
                transfer,
                facts0,
                i,
                facts0[i as int],
            ),
        forall|holds: spec_fn(NodeId, F) -> bool|
            #[trigger] inductive(cfg, transfer, holds) ==> forall|i: NodeId|
                0 <= i < facts0.len() ==> holds(i, #[trigger] facts0[i as int]),
    ensures
        all_valid(facts),
        forall|i: int| 0 <= i < facts.len() ==> inside(#[trigger] facts[i]),
        forall|i: NodeId|
            0 <= i < cfg.nodes@.len() ==> {
                &&& all_valid(#[trigger] bases[i as int])
                &&& all_below(bases[i as int], facts)
                &&& facts[i as int].is_bottom() || yields(
                    cfg,
                    transfer,
                    bases[i as int],
                    i,
                    facts[i as int],
                )
            },
        forall|i: NodeId|
            0 <= i < cfg.nodes@.len() && !#[trigger] queued[i as int] && !cfg.succs(node).contains(i)
                ==> yields(cfg, transfer, facts, i, facts[i as int]),
        forall|holds: spec_fn(NodeId, F) -> bool|
            #[trigger] inductive(cfg, transfer, holds) ==> forall|i: NodeId|
                0 <= i < facts.len() ==> holds(i, #[trigger] facts[i as int]),
{
    F::below_reflexive(new_out);
    assert(yields(cfg, transfer, facts0, node, new_out));
    assert(all_below(facts0, facts)) by {
        assert forall|i: int| 0 <= i < facts0.len() implies (#[trigger] facts0[i]).below(
            &facts[i],
        ) by {
            F::below_reflexive(facts0[i]);
        }
    }
    assert forall|i: NodeId| 0 <= i < cfg.nodes@.len() implies all_valid(#[trigger] bases[i as int])
        && all_below(bases[i as int], facts) && (facts[i as int].is_bottom() || yields(
        cfg,
        transfer,
        bases[i as int],
        i,
        facts[i as int],
    )) by {
        if i != node {
            let base = bases0[i as int];
            assert(bases[i as int] == base);
            assert forall|k: int| 0 <= k < base.len() implies (#[trigger] base[k]).below(
                &facts[k],
            ) by {
                F::below_transitive(base[k], facts0[k], facts[k]);
            }
        }
    }
    assert forall|i: NodeId|
        0 <= i < cfg.nodes@.len() && !#[trigger] queued[i as int] && !cfg.succs(node).contains(
            i,
        ) implies yields(cfg, transfer, facts, i, facts[i as int]) by {
        crate::dataflow::cfg::preds_and_succs_are_dual(cfg.edges@, node, i);
        lemma_preds_in_range(cfg, i);
        assert forall|k: int| 0 <= k < cfg.preds(i).len() implies facts0[(
        #[trigger] cfg.preds(i)[k]) as int] == facts[cfg.preds(i)[k] as int] by {
            assert(cfg.preds(i).contains(cfg.preds(i)[k]));
        }
        let fact = facts[i as int];
        let (before, after) = choose|before: F, after: F|
            #![trigger folds(facts0, cfg.preds(i), before), after.below(&fact)]
            {
                &&& folds(facts0, cfg.preds(i), before)
                &&& call_ensures(transfer, (i, &cfg.nodes@[i as int], &before), after)
                &&& after.valid()
                &&& after.below(&fact)
                &&& fact.below(&after)
            };
        lemma_folds_frame(facts0, facts, cfg.preds(i), before);
    }
    assert forall|holds: spec_fn(NodeId, F) -> bool|
        #[trigger] inductive(cfg, transfer, holds) implies forall|i: NodeId|
        0 <= i < facts.len() ==> holds(i, #[trigger] facts[i as int]) by {
        assert(holds(node, new_out));
        assert forall|i: NodeId| 0 <= i < facts.len() implies holds(
            i,
            #[trigger] facts[i as int],
        ) by {
            assert(holds(i, facts0[i as int]));
        }
    }
}

/// A solution is the least of all post-fixpoints, hence of all fixpoints: it
/// says nothing that another does not say.
pub proof fn solution_is_least<S, F: Lattice, T: Fn(NodeId, &CfgNode<S>, &F) -> F>(
    cfg: &Cfg<S>,
    transfer: T,
    facts: Seq<F>,
    other: Seq<F>,
)
    requires
        cfg.well_formed(),
        monotone(cfg, transfer),
        is_solution(cfg, transfer, facts),
        is_post_fixpoint(cfg, transfer, other),
    ensures
        all_below(facts, other),
{
    assert(cfg.nodes.len() == cfg.nodes@.len());
    let holds = |i: NodeId, f: F| 0 <= i < other.len() && f.valid() ==> f.below(&other[i as int]);
    assert(inductive(cfg, transfer, holds)) by {
        assert forall|i: NodeId, f: F| f.valid() && f.is_bottom() implies #[trigger] holds(i, f) by {
            if 0 <= i < other.len() {
                F::bottom_is_least(f, other[i as int]);
            }
        }
        assert forall|now: Seq<F>, i: NodeId, before: F, after: F|
            {
                &&& now.len() == cfg.nodes@.len()
                &&& all_valid(now)
                &&& forall|k: NodeId| 0 <= k < now.len() ==> holds(k, #[trigger] now[k as int])
                &&& 0 <= i < cfg.nodes@.len()
                &&& #[trigger] folds(now, cfg.preds(i), before)
                &&& #[trigger] call_ensures(
                    transfer,
                    (i, &cfg.nodes@[i as int], &before),
                    after,
                )
            } implies holds(i, after) by {
            assert forall|k: int| 0 <= k < now.len() implies (#[trigger] now[k]).below(
                &other[k],
            ) by {
                assert(holds(k as NodeId, now[(k as NodeId) as int]));
            }
            assert(absorbs(cfg, transfer, other, i));
            let (before2, after2) = choose|before: F, after: F|
                #![trigger folds(other, cfg.preds(i), before), after.below(&other[i as int])]
                {
                    &&& folds(other, cfg.preds(i), before)
                    &&& call_ensures(transfer, (i, &cfg.nodes@[i as int], &before), after)
                    &&& after.valid()
                    &&& after.below(&other[i as int])
                };
            lemma_preds_in_range(cfg, i);
            lemma_folds_monotone(now, other, cfg.preds(i), before, before2);
            F::below_transitive(after, after2, other[i as int]);
        }
    }
    assert forall|i: int| 0 <= i < facts.len() implies (#[trigger] facts[i]).below(&other[i]) by {
        assert(holds(i as NodeId, facts[(i as NodeId) as int]));
    }
}

/// Any two solutions say the same of every node: the outcome does not depend
/// on the order in which nodes are run.
pub proof fn solution_is_unique<S, F: Lattice, T: Fn(NodeId, &CfgNode<S>, &F) -> F>(
    cfg: &Cfg<S>,
    transfer: T,
    a: Seq<F>,
    b: Seq<F>,
)
    requires
        cfg.well_formed(),
        monotone(cfg, transfer),
        is_solution(cfg, transfer, a),
        is_solution(cfg, transfer, b),
    ensures
        forall|i: int| 0 <= i < a.len() ==> (#[trigger] a[i]).eq_spec(&b[i]),
{
    lemma_fixpoint_is_post_fixpoint(cfg, transfer, a);
    lemma_fixpoint_is_post_fixpoint(cfg, transfer, b);
    solution_is_least(cfg, transfer, a, b);
    solution_is_least(cfg, transfer, b, a);
    assert forall|i: int| 0 <= i < a.len() implies (#[trigger] a[i]).eq_spec(&b[i]) by {
        assert(b[i].below(&a[i]));
        F::eq_is_mutual_below(a[i], b[i]);
    }
}

/// A fixpoint is a post-fixpoint.
pub proof fn lemma_fixpoint_is_post_fixpoint<S, F: Lattice, T: Fn(NodeId, &CfgNode<S>, &F) -> F>(
    cfg: &Cfg<S>,
    transfer: T,
    facts: Seq<F>,
)
    requires
        is_fixpoint(cfg, transfer, facts),
    ensures
        is_post_fixpoint(cfg, transfer, facts),
{
    assert forall|i: NodeId| 0 <= i < cfg.nodes@.len() implies #[trigger] absorbs(
        cfg,
        transfer,
        facts,
        i,
    ) by {
        assert(yields(cfg, transfer, facts, i, facts[i as int]));
    }
}

} // verus!
