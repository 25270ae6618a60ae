//! A helper may return `null`, and its caller dereferences the result without
//! a null check. Two passes, as for Go's typed nil: `compute_summary` says of
//! each function whether it may return `null`, with the calls it makes an
//! unknown boundary; `check` resolves calls by those summaries, one hop deep.

use vstd::prelude::*;

use crate::dataflow::cfg::{CallTarget, Cfg, NodeId, Stmt};
use crate::dataflow::name_facts;
use crate::dataflow::name_facts::{HitRule, NameRule};
use crate::dataflow::rules::go_typed_nil_interface_return;
use crate::dataflow::rules::go_typed_nil_interface_return::NilReturnRule;
use crate::dataflow::rules::nil_facts;
use crate::dataflow::summaries;
use crate::dataflow::summaries::Summaries;
use crate::dataflow::taint;
use crate::names::NameSet;
use crate::text;

verus! {

/// A method call on a receiver that may be `null`.
#[derive(Debug, Clone, PartialEq, Eq)]
pub struct NpeRiskHit {
    pub var: String,
    pub call_name: String,
    pub node: NodeId,
    pub source_line: u32,
}

/// What an `NpeRiskHit` says.
pub struct NpeRiskHitView {
    pub var: Seq<char>,
    pub call_name: Seq<char>,
    pub node: NodeId,
    pub source_line: u32,
}

impl View for NpeRiskHit {
    type V = NpeRiskHitView;

    open spec fn view(&self) -> NpeRiskHitView {
        NpeRiskHitView {
            var: self.var@,
            call_name: self.call_name@,
            node: self.node,
            source_line: self.source_line,
        }
    }
}

/// The rule, with the summaries that it resolves calls by and the methods that
/// a null receiver answers too.
pub struct DereferenceRule<'a> {
    pub summaries: Option<&'a Summaries>,
    pub null_safe_methods: &'a [&'a str],
}

impl<'a> NameRule for DereferenceRule<'a> {
    open spec fn flow(&self, held: Set<Seq<char>>, stmt: Stmt) -> Set<Seq<char>> {
        nil_facts::nil_flow(summaries::owned(self.summaries), held, stmt)
    }

    open spec fn added(&self, stmt: Stmt) -> Set<Seq<char>> {
        nil_facts::nil_target(stmt)
    }

    fn step(&self, held: &NameSet, stmt: &Stmt) -> (after: NameSet) {
        nil_facts::nil_step(self.summaries, held, stmt)
    }

    proof fn flow_is_additive(&self, a: Set<Seq<char>>, b: Set<Seq<char>>, stmt: Stmt) {
        nil_facts::lemma_nil_additive(summaries::owned(self.summaries), a, b, stmt);
    }

    proof fn flow_is_bounded(&self, held: Set<Seq<char>>, stmt: Stmt) {
    }
}

impl<'a> HitRule for DereferenceRule<'a> {
    type Hit = NpeRiskHit;

    open spec fn hit_on(&self, held: Set<Seq<char>>, stmt: Stmt, node: NodeId, line: u32) -> Option<
        NpeRiskHitView,
    > {
        match stmt {
            Stmt::Call { target: CallTarget::Named(name), args, assigned_to } => {
                match text::split_first(name@, '.') {
                    Some((receiver, method)) => if held.contains(receiver) && !text::views(
                        self.null_safe_methods@,
                    ).contains(method) {
                        Some(
                            NpeRiskHitView {
                                var: receiver,
                                call_name: name@,
                                node,
                                source_line: line,
                            },
                        )
                    } else {
                        None
                    },
                    None => None,
                }
            },
            _ => None,
        }
    }

    fn find_hit(&self, held: &NameSet, stmt: &Stmt, node: NodeId, line: u32) -> (hit: Option<
        NpeRiskHit,
    >) {
        match stmt {
            Stmt::Call { target: CallTarget::Named(name), args: _, assigned_to: _ } => {
                match text::split_once(name.as_str(), '.') {
                    Some((receiver, method)) => {
                        if !text::contains_str(self.null_safe_methods, method) && held.contains(
                            receiver,
                        ) {
                            Some(
                                NpeRiskHit {
                                    var: receiver.to_owned(),
                                    call_name: name.clone(),
                                    node,
                                    source_line: line,
                                },
                            )
                        } else {
                            None
                        }
                    },
                    None => None,
                }
            },
            _ => None,
        }
    }
}

/// Whether the function returns, on some path, a variable that may be `null`
/// there. Calls count as returning something that is not `null`.
pub fn compute_summary(cfg: &Cfg<Stmt>) -> (r: bool)
    requires
        cfg.well_formed(),
    ensures
        r == exists|node: NodeId, k: int| #[trigger]
            taint::returns_held(NilReturnRule { summaries: None }, *cfg, node, k),
{
    go_typed_nil_interface_return::compute_summary(cfg)
}

/// The method calls whose receiver, the part of the call's name before its
/// first dot, may be `null`, in node order and within a node in statement
/// order. `summaries` says of other functions whether they may return `null`;
/// the methods in `null_safe_methods` are never a risk (Kotlin's `toString`;
/// none in Java).
pub fn check(cfg: &Cfg<Stmt>, summaries: &Summaries, null_safe_methods: &[&str]) -> (hits: Vec<
    NpeRiskHit,
>)
    requires
        cfg.well_formed(),
    ensures
        text::views(hits@) == name_facts::hits_in(
            DereferenceRule { summaries: Some(summaries), null_safe_methods },
            *cfg,
            cfg.nodes@.len(),
        ),
{
    let rule: DereferenceRule = DereferenceRule { summaries: Some(summaries), null_safe_methods };
    name_facts::scan(&rule, cfg)
}

/// Behind a `!= null` guard on a variable no call on it is a risk, whatever
/// was tracked before.
pub proof fn guard_clears_its_variable(
    rule: DereferenceRule,
    held: Set<Seq<char>>,
    guard: Stmt,
    call: Stmt,
    node: NodeId,
    line: u32,
)
    requires
        guard matches Stmt::Guard { var, op, against } && op is NotEqual && (call matches Stmt::Call {
            target: CallTarget::Named(name),
            args,
            assigned_to,
        } && (text::split_first(name@, '.') matches Some((receiver, method)) && receiver == var@)),
    ensures
        rule.hit_on(rule.flow(held, guard), call, node, line) is None,
{
}

/// The more functions are known to return `null`, the more calls are reported.
pub proof fn hits_grow_with_summaries(
    less: DereferenceRule,
    more: DereferenceRule,
    cfg: Cfg<Stmt>,
    hit: NpeRiskHitView,
)
    requires
        summaries::says_no_more(summaries::owned(less.summaries), summaries::owned(more.summaries)),
        less.null_safe_methods == more.null_safe_methods,
        cfg.nodes@.len() <= NodeId::MAX,
        name_facts::hits_in(less, cfg, cfg.nodes@.len()).contains(hit),
    ensures
        name_facts::hits_in(more, cfg, cfg.nodes@.len()).contains(hit),
{
    nil_facts::lemma_nil_grows(summaries::owned(less.summaries), summaries::owned(more.summaries));
    name_facts::more_tracked_means_more_hits(less, more, cfg, hit);
}

/// A call by name of a method on a receiver: the name is the receiver, a dot, and
/// the method, and the receiver has no dot.
pub open spec fn called_on(name: Seq<char>, receiver: Seq<char>, method: Seq<char>) -> bool {
    &&& name == receiver + seq!['.'] + method
    &&& forall|i: int| 0 <= i < receiver.len() ==> #[trigger] receiver[i] != '.'
}

/// What is reported is a call of a method, other than a null-safe one, on a
/// variable that may be null there, with the variable, the call and where it
/// stands, and nothing else.
pub proof fn calls_on_what_may_be_null_are_reported(
    rule: DereferenceRule,
    cfg: Cfg<Stmt>,
    hit: NpeRiskHitView,
)
    requires
        cfg.nodes@.len() <= NodeId::MAX,
    ensures
        name_facts::hits_in(rule, cfg, cfg.nodes@.len()).contains(hit) <==> hit.node
            < cfg.nodes@.len() && hit.source_line == cfg.nodes@[hit.node as int].source_line
            && exists|k: int, method: Seq<char>|
            0 <= k < cfg.nodes@[hit.node as int].stmts@.len() && (
            #[trigger] cfg.nodes@[hit.node as int].stmts@[k] matches Stmt::Call {
                target: CallTarget::Named(name),
                args,
                assigned_to,
            } && name@ == hit.call_name) && #[trigger] called_on(hit.call_name, hit.var, method) && (
            forall|i: int|
                0 <= i < rule.null_safe_methods@.len() ==> (
                #[trigger] rule.null_safe_methods@[i])@ != method) && name_facts::held_at(
                rule,
                cfg,
                hit.node,
                k,
            ).contains(hit.var),
{
    let len = cfg.nodes@.len();
    let safe = text::views(rule.null_safe_methods@);
    name_facts::hits_are_what_walks_track(rule, cfg, len, hit);
    assert forall|method: Seq<char>| safe.contains(method) <==> exists|i: int|
        0 <= i < rule.null_safe_methods@.len() && (#[trigger] rule.null_safe_methods@[i])@
            == method by {
        if safe.contains(method) {
            let i = choose|i: int| 0 <= i < safe.len() && safe[i] == method;
            assert(rule.null_safe_methods@[i]@ == method);
        }
        if exists|i: int|
            0 <= i < rule.null_safe_methods@.len() && (#[trigger] rule.null_safe_methods@[i])@
                == method {
            let i = choose|i: int|
                0 <= i < rule.null_safe_methods@.len() && (#[trigger] rule.null_safe_methods@[i])@
                    == method;
            assert(safe[i] == method);
        }
    }
    if name_facts::hits_in(rule, cfg, len).contains(hit) {
        let (node, k) = choose|node: int, k: int|
            0 <= node < len && #[trigger] name_facts::reported(rule, cfg, node, k, hit);
        assert(hit.node == node);
        if let Stmt::Call { target: CallTarget::Named(name), args, assigned_to } =
            cfg.nodes@[node].stmts@[k] {
            lemma_split(name@);
            let parts = text::split_first(name@, '.')->0;
            let method = parts.1;
            assert(called_on(hit.call_name, hit.var, method));
            assert(cfg.nodes@[hit.node as int].stmts@[k] is Call);
        }
    }
    if hit.node < len && hit.source_line == cfg.nodes@[hit.node as int].source_line && exists|
        k: int,
        method: Seq<char>,
    |
        0 <= k < cfg.nodes@[hit.node as int].stmts@.len() && (
        #[trigger] cfg.nodes@[hit.node as int].stmts@[k] matches Stmt::Call {
            target: CallTarget::Named(name),
            args,
            assigned_to,
        } && name@ == hit.call_name) && #[trigger] called_on(hit.call_name, hit.var, method) && (
        forall|i: int|
            0 <= i < rule.null_safe_methods@.len() ==> (#[trigger] rule.null_safe_methods@[i])@
                != method) && name_facts::held_at(rule, cfg, hit.node, k).contains(hit.var) {
        let (k, method) = choose|k: int, method: Seq<char>|
            0 <= k < cfg.nodes@[hit.node as int].stmts@.len() && (
            #[trigger] cfg.nodes@[hit.node as int].stmts@[k] matches Stmt::Call {
                target: CallTarget::Named(name),
                args,
                assigned_to,
            } && name@ == hit.call_name) && #[trigger] called_on(hit.call_name, hit.var, method) && (
            forall|i: int|
                0 <= i < rule.null_safe_methods@.len() ==> (
                #[trigger] rule.null_safe_methods@[i])@ != method) && name_facts::held_at(
                rule,
                cfg,
                hit.node,
                k,
            ).contains(hit.var);
        lemma_split_is(hit.call_name, hit.var, method);
        assert((hit.node as int) as NodeId == hit.node);
        assert(name_facts::reported(rule, cfg, hit.node as int, k, hit));
    }
}

proof fn lemma_split_is(name: Seq<char>, receiver: Seq<char>, method: Seq<char>)
    requires
        called_on(name, receiver, method),
    ensures
        text::split_first(name, '.') == Some((receiver, method)),
{
    let n = receiver.len() as int;
    assert forall|j: int| 0 <= j < n implies #[trigger] name[j] != '.' by {
        assert(name[j] == receiver[j]);
    }
    assert(name[n] == '.');
    text::lemma_first_at(name, '.', n);
    assert(name.take(n) =~= receiver);
    assert(name.skip(n + 1) =~= method);
}

proof fn lemma_split(name: Seq<char>)
    ensures
        text::split_first(name, '.') matches Some((receiver, method)) ==> called_on(
            name,
            receiver,
            method,
        ),
{
    text::lemma_first_of(name, '.');
    if let Some((receiver, method)) = text::split_first(name, '.') {
        let n = receiver.len() as int;
        assert(name =~= receiver + seq!['.'] + method);
        assert forall|i: int| 0 <= i < n implies #[trigger] receiver[i] != '.' by {
            assert(receiver[i] == name[i]);
        }
    }
}

} // verus!
