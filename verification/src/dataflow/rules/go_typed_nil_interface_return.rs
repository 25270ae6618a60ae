//! A typed nil pointer returned through an `error` result is not a nil
//! `error`. Two passes: `compute_summary` says of each pointer-returning
//! function whether it may return a nil pointer, with the calls it makes an
//! unknown boundary; `check` runs on each function with an `error` result and
//! resolves its calls by those summaries, one hop deep.

use vstd::prelude::*;

use crate::dataflow::cfg::{CallTarget, Cfg, NodeId, Stmt};
use crate::dataflow::name_facts;
use crate::dataflow::name_facts::{HitRule, NameRule};
use crate::dataflow::rules::nil_facts;
use crate::dataflow::summaries;
use crate::dataflow::summaries::Summaries;
use crate::dataflow::taint;
use crate::names::NameSet;
use crate::text;

verus! {

/// A return of a variable that may be a typed nil.
#[derive(Debug, Clone, PartialEq, Eq)]
pub struct TypedNilInterfaceReturnHit {
    pub var: String,
    pub node: NodeId,
    pub source_line: u32,
}

/// What a `TypedNilInterfaceReturnHit` says.
pub struct TypedNilInterfaceReturnHitView {
    pub var: Seq<char>,
    pub node: NodeId,
    pub source_line: u32,
}

impl View for TypedNilInterfaceReturnHit {
    type V = TypedNilInterfaceReturnHitView;

    open spec fn view(&self) -> TypedNilInterfaceReturnHitView {
        TypedNilInterfaceReturnHitView {
            var: self.var@,
            node: self.node,
            source_line: self.source_line,
        }
    }
}

/// The rule, with the summaries that it resolves calls by.
pub struct NilReturnRule<'a> {
    pub summaries: Option<&'a Summaries>,
}

impl<'a> NameRule for NilReturnRule<'a> {
    open spec fn flow(&self, held: Set<Seq<char>>, stmt: Stmt) -> Set<Seq<char>> {
        nil_facts::nil_flow(summaries::owned(self.summaries), held, stmt)
    }

    open spec fn added(&self, stmt: Stmt) -> Set<Seq<char>> {
        nil_facts::nil_target(stmt)
    }

    fn step(&self, held: &NameSet, stmt: &Stmt) -> (after: NameSet) {
        nil_facts::nil_step(self.summaries, held, stmt)
    }

    proof fn flow_is_additive(&self, a: Set<Seq<char>>, b: Set<Seq<char>>, stmt: Stmt) {
        nil_facts::lemma_nil_additive(summaries::owned(self.summaries), a, b, stmt);
    }

    proof fn flow_is_bounded(&self, held: Set<Seq<char>>, stmt: Stmt) {
    }
}

impl<'a> HitRule for NilReturnRule<'a> {
    type Hit = TypedNilInterfaceReturnHit;

    open spec fn hit_on(&self, held: Set<Seq<char>>, stmt: Stmt, node: NodeId, line: u32) -> Option<
        TypedNilInterfaceReturnHitView,
    > {
        match stmt {
            Stmt::Return { value: Some(v) } => if held.contains(v@) {
                Some(TypedNilInterfaceReturnHitView { var: v@, node, source_line: line })
            } else {
                None
            },
            _ => None,
        }
    }

    fn find_hit(&self, held: &NameSet, stmt: &Stmt, node: NodeId, line: u32) -> (hit: Option<
        TypedNilInterfaceReturnHit,
    >) {
        match stmt {
            Stmt::Return { value: Some(v) } => {
                if held.contains(v.as_str()) {
                    Some(TypedNilInterfaceReturnHit { var: v.clone(), node, source_line: line })
                } else {
                    None
                }
            },
            _ => None,
        }
    }
}

/// Whether the function returns, on some path, a variable that may be nil
/// there. Calls count as returning something that is not nil.
pub fn compute_summary(cfg: &Cfg<Stmt>) -> (r: bool)
    requires
        cfg.well_formed(),
    ensures
        r == exists|node: NodeId, k: int| #[trigger]
            taint::returns_held(NilReturnRule { summaries: None }, *cfg, node, k),
{
    taint::returns_tracked(&NilReturnRule { summaries: None }, cfg)
}

/// The returns of a variable that may be a typed nil, in node order and within
/// a node in statement order. `summaries` says of other functions whether they
/// may return a nil pointer.
pub fn check(cfg: &Cfg<Stmt>, summaries: &Summaries) -> (hits: Vec<TypedNilInterfaceReturnHit>)
    requires
        cfg.well_formed(),
    ensures
        text::views(hits@) == name_facts::hits_in(
            NilReturnRule { summaries: Some(summaries) },
            *cfg,
            cfg.nodes@.len(),
        ),
{
    let rule: NilReturnRule = NilReturnRule { summaries: Some(summaries) };
    name_facts::scan(&rule, cfg)
}

/// The more functions are known to return nil, the more returns are reported.
pub proof fn hits_grow_with_summaries(
    less: NilReturnRule,
    more: NilReturnRule,
    cfg: Cfg<Stmt>,
    hit: TypedNilInterfaceReturnHitView,
)
    requires
        summaries::says_no_more(summaries::owned(less.summaries), summaries::owned(more.summaries)),
        cfg.nodes@.len() <= NodeId::MAX,
        name_facts::hits_in(less, cfg, cfg.nodes@.len()).contains(hit),
    ensures
        name_facts::hits_in(more, cfg, cfg.nodes@.len()).contains(hit),
{
    nil_facts::lemma_nil_grows(summaries::owned(less.summaries), summaries::owned(more.summaries));
    name_facts::more_tracked_means_more_hits(less, more, cfg, hit);
}

/// A function is summarised as one that may return nil exactly if the check on
/// it, with no other function known to, has hits.
pub proof fn a_risky_summary_is_a_hit(rule: NilReturnRule, cfg: Cfg<Stmt>)
    requires
        forall|name: Seq<char>| !#[trigger]
            summaries::summarized(summaries::owned(rule.summaries), name),
        cfg.nodes@.len() <= NodeId::MAX,
    ensures
        (exists|node: NodeId, k: int| #[trigger]
            taint::returns_held(NilReturnRule { summaries: None }, cfg, node, k))
            <==> name_facts::hits_in(rule, cfg, cfg.nodes@.len()).len() > 0,
{
    let bare = NilReturnRule { summaries: None };
    let count = cfg.nodes@.len();
    let hits = name_facts::hits_in(rule, cfg, count);
    assert forall|held: Set<Seq<char>>, stmt: Stmt| #[trigger] bare.flow(held, stmt) == rule.flow(
        held,
        stmt,
    ) by {
        if let Stmt::Call { target: CallTarget::Named(name), args, assigned_to: Some(v) } = stmt {
            assert(!summaries::summarized(summaries::owned(rule.summaries), name@));
        }
    }
    assert forall|node: NodeId, k: int| name_facts::held_at(bare, cfg, node, k)
        == #[trigger] name_facts::held_at(rule, cfg, node, k) by {
        name_facts::lemma_same_flow(bare, rule, cfg, node);
        name_facts::lemma_same_flow_all(
            bare,
            rule,
            name_facts::held_before(bare, cfg, node),
            cfg.nodes@[node as int].stmts@.take(k),
        );
    }
    if exists|node: NodeId, k: int| #[trigger] taint::returns_held(bare, cfg, node, k) {
        let (node, k) = choose|node: NodeId, k: int| #[trigger]
            taint::returns_held(bare, cfg, node, k);
        let stmt = cfg.nodes@[node as int].stmts@[k];
        let hit = TypedNilInterfaceReturnHitView {
            var: stmt->Return_value->0@,
            node,
            source_line: cfg.nodes@[node as int].source_line,
        };
        assert(name_facts::held_at(bare, cfg, node, k) == name_facts::held_at(rule, cfg, node, k));
        assert(name_facts::reported(rule, cfg, node as int, k, hit));
        name_facts::hits_are_what_walks_track(rule, cfg, count, hit);
        assert(hits.contains(hit));
    }
    if hits.len() > 0 {
        let hit = hits[0];
        assert(hits.contains(hit));
        name_facts::hits_are_what_walks_track(rule, cfg, count, hit);
        let (node, k) = choose|node: int, k: int|
            0 <= node < count && #[trigger] name_facts::reported(rule, cfg, node, k, hit);
        let id = node as NodeId;
        assert(name_facts::held_at(bare, cfg, id, k) == name_facts::held_at(rule, cfg, id, k));
        assert(taint::returns_held(bare, cfg, id, k));
    }
}

/// What is reported is a return of a variable that may be nil there, with the
/// variable and where it stands, and nothing else.
pub proof fn returns_of_what_may_be_nil_are_reported(
    rule: NilReturnRule,
    cfg: Cfg<Stmt>,
    hit: TypedNilInterfaceReturnHitView,
)
    requires
        cfg.nodes@.len() <= NodeId::MAX,
    ensures
        name_facts::hits_in(rule, cfg, cfg.nodes@.len()).contains(hit) <==> hit.node
            < cfg.nodes@.len() && hit.source_line == cfg.nodes@[hit.node as int].source_line
            && exists|k: int|
            0 <= k < cfg.nodes@[hit.node as int].stmts@.len() && (
            #[trigger] cfg.nodes@[hit.node as int].stmts@[k] matches Stmt::Return { value: Some(v) }
                && v@ == hit.var) && name_facts::held_at(rule, cfg, hit.node, k).contains(hit.var),
{
    name_facts::hits_are_what_walks_track(rule, cfg, cfg.nodes@.len(), hit);
    let len = cfg.nodes@.len();
    if name_facts::hits_in(rule, cfg, len).contains(hit) {
        let (node, k) = choose|node: int, k: int|
            0 <= node < len && #[trigger] name_facts::reported(rule, cfg, node, k, hit);
        assert(hit.node == node);
        assert(cfg.nodes@[hit.node as int].stmts@[k] is Return);
    }
    if hit.node < len && hit.source_line == cfg.nodes@[hit.node as int].source_line && exists|k: int|
        0 <= k < cfg.nodes@[hit.node as int].stmts@.len() && (
        #[trigger] cfg.nodes@[hit.node as int].stmts@[k] matches Stmt::Return { value: Some(v) }
            && v@ == hit.var) && name_facts::held_at(rule, cfg, hit.node, k).contains(hit.var) {
        let k = choose|k: int|
            0 <= k < cfg.nodes@[hit.node as int].stmts@.len() && (
            #[trigger] cfg.nodes@[hit.node as int].stmts@[k] matches Stmt::Return { value: Some(v) }
                && v@ == hit.var) && name_facts::held_at(rule, cfg, hit.node, k).contains(hit.var);
        assert((hit.node as int) as NodeId == hit.node);
        assert(name_facts::reported(rule, cfg, hit.node as int, k, hit));
    }
}

} // verus!
