//! Two rules on `range` loop variables before Go 1.22, where a loop variable
//! is one variable for all iterations: a closure that captures one by
//! reference, and `&variable` taken in the loop body. Callers gate both on the
//! Go version that `go.mod` targets. A variable stays a loop variable behind
//! its loop.

use vstd::prelude::*;

use crate::dataflow::cfg::{Cfg, ClosureKind, NodeId, RhsShape, Stmt};
use crate::dataflow::name_facts;
use crate::dataflow::name_facts::{HitRule, NameRule};
use crate::names::NameSet;
use crate::text;

verus! {

/// The loop variables after a statement: a `for` clause adds its variables, and
/// a self-copy (`item := item`) gives its variable a binding of its own.
pub open spec fn loopvar_flow(held: Set<Seq<char>>, stmt: Stmt) -> Set<Seq<char>> {
    match stmt {
        Stmt::LoopVarBind { vars } => held.union(text::views(vars@).to_set()),
        Stmt::Assign { lhs, rhs: RhsShape::Var(from) } => if lhs@ == from@ {
            held.remove(lhs@)
        } else {
            held
        },
        _ => held,
    }
}

/// The loop variables that a statement adds.
pub open spec fn bound_vars(stmt: Stmt) -> Set<Seq<char>> {
    match stmt {
        Stmt::LoopVarBind { vars } => text::views(vars@).to_set(),
        _ => Set::empty(),
    }
}

fn loopvar_step(held: &NameSet, stmt: &Stmt) -> (after: NameSet)
    ensures
        after@ == loopvar_flow(held@, *stmt),
{
    let mut after: NameSet = held.dup();
    match stmt {
        Stmt::LoopVarBind { vars } => {
            let mut i: usize = 0;
            proof {
                assert(after@ =~= held@.union(text::views(vars@.take(0)).to_set()));
            }
            while i < vars.len()
                invariant
                    0 <= i <= vars@.len(),
                    after@ == held@.union(text::views(vars@.take(i as int)).to_set()),
                decreases vars.len() - i,
            {
                after.insert(vars[i].as_str());
                proof {
                    let shorter = text::views(vars@.take(i as int));
                    let longer = text::views(vars@.take(i + 1));
                    assert(longer =~= shorter.push(vars@[i as int]@));
                    assert forall|x: Seq<char>| after@.contains(x) <==> held@.union(
                        longer.to_set(),
                    ).contains(x) by {
                        text::lemma_push_contains(shorter, vars@[i as int]@, x);
                    }
                    assert(after@ =~= held@.union(longer.to_set()));
                }
                i += 1;
            }
            proof {
                assert(vars@.take(vars@.len() as int) =~= vars@);
            }
        },
        Stmt::Assign { lhs, rhs: RhsShape::Var(from) } => {
            if text::same(lhs.as_str(), from.as_str()) {
                after.remove(lhs.as_str());
            }
        },
        _ => {},
    }
    after
}

proof fn lemma_loopvar_additive(a: Set<Seq<char>>, b: Set<Seq<char>>, stmt: Stmt)
    ensures
        loopvar_flow(a.union(b), stmt) == loopvar_flow(a, stmt).union(loopvar_flow(b, stmt)),
{
    assert(loopvar_flow(a.union(b), stmt) =~= loopvar_flow(a, stmt).union(loopvar_flow(b, stmt)));
}

proof fn lemma_loopvar_bounded(held: Set<Seq<char>>, stmt: Stmt)
    ensures
        loopvar_flow(held, stmt).subset_of(held.union(bound_vars(stmt))),
        bound_vars(stmt).finite(),
{
    broadcast use vstd::seq_lib::seq_to_set_is_finite;

}

/// The first of the names that is in the set.
pub open spec fn first_held(held: Set<Seq<char>>, names: Seq<Seq<char>>) -> Option<Seq<char>>
    decreases names.len(),
{
    if names.len() == 0 {
        None
    } else if held.contains(names[0]) {
        Some(names[0])
    } else {
        first_held(held, names.drop_first())
    }
}

/// A closure that captures a loop variable.
#[derive(Debug, Clone, PartialEq, Eq)]
pub struct LoopVarCaptureHit {
    pub var: String,
    pub kind: ClosureKind,
    pub node: NodeId,
    pub source_line: u32,
}

/// What a `LoopVarCaptureHit` says.
pub struct LoopVarCaptureHitView {
    pub var: Seq<char>,
    pub kind: ClosureKind,
    pub node: NodeId,
    pub source_line: u32,
}

impl View for LoopVarCaptureHit {
    type V = LoopVarCaptureHitView;

    open spec fn view(&self) -> LoopVarCaptureHitView {
        LoopVarCaptureHitView {
            var: self.var@,
            kind: self.kind,
            node: self.node,
            source_line: self.source_line,
        }
    }
}

/// An address taken of a loop variable.
#[derive(Debug, Clone, PartialEq, Eq)]
pub struct LoopVarAddressHit {
    pub var: String,
    pub node: NodeId,
    pub source_line: u32,
}

/// What a `LoopVarAddressHit` says.
pub struct LoopVarAddressHitView {
    pub var: Seq<char>,
    pub node: NodeId,
    pub source_line: u32,
}

impl View for LoopVarAddressHit {
    type V = LoopVarAddressHitView;

    open spec fn view(&self) -> LoopVarAddressHitView {
        LoopVarAddressHitView { var: self.var@, node: self.node, source_line: self.source_line }
    }
}

/// The rule on captured loop variables.
pub struct CaptureRule;

/// The rule on addresses of loop variables.
pub struct AddressRule;

impl NameRule for CaptureRule {
    open spec fn flow(&self, held: Set<Seq<char>>, stmt: Stmt) -> Set<Seq<char>> {
        loopvar_flow(held, stmt)
    }

    open spec fn added(&self, stmt: Stmt) -> Set<Seq<char>> {
        bound_vars(stmt)
    }

    fn step(&self, held: &NameSet, stmt: &Stmt) -> (after: NameSet) {
        loopvar_step(held, stmt)
    }

    proof fn flow_is_additive(&self, a: Set<Seq<char>>, b: Set<Seq<char>>, stmt: Stmt) {
        lemma_loopvar_additive(a, b, stmt);
    }

    proof fn flow_is_bounded(&self, held: Set<Seq<char>>, stmt: Stmt) {
        lemma_loopvar_bounded(held, stmt);
    }
}

impl NameRule for AddressRule {
    open spec fn flow(&self, held: Set<Seq<char>>, stmt: Stmt) -> Set<Seq<char>> {
        loopvar_flow(held, stmt)
    }

    open spec fn added(&self, stmt: Stmt) -> Set<Seq<char>> {
        bound_vars(stmt)
    }

    fn step(&self, held: &NameSet, stmt: &Stmt) -> (after: NameSet) {
        loopvar_step(held, stmt)
    }

    proof fn flow_is_additive(&self, a: Set<Seq<char>>, b: Set<Seq<char>>, stmt: Stmt) {
        lemma_loopvar_additive(a, b, stmt);
    }

    proof fn flow_is_bounded(&self, held: Set<Seq<char>>, stmt: Stmt) {
        lemma_loopvar_bounded(held, stmt);
    }
}

fn find_held(held: &NameSet, names: &Vec<String>) -> (found: Option<String>)
    ensures
        match found {
            Some(name) => first_held(held@, text::views(names@)) == Some(name@),
            None => first_held(held@, text::views(names@)) is None,
        },
{
    let ghost all = text::views(names@);
    let mut i: usize = 0;
    proof {
        assert(all.skip(0) =~= all);
    }
    while i < names.len()
        invariant
            0 <= i <= names@.len(),
            all == text::views(names@),
            first_held(held@, all) == first_held(held@, all.skip(i as int)),
        decreases names.len() - i,
    {
        proof {
            assert(all.skip(i as int)[0] == names@[i as int]@);
            assert(all.skip(i as int).drop_first() =~= all.skip(i + 1));
        }
        if held.contains(names[i].as_str()) {
            return Some(names[i].clone());
        }
        i += 1;
    }
    None
}

impl HitRule for CaptureRule {
    type Hit = LoopVarCaptureHit;

    open spec fn hit_on(&self, held: Set<Seq<char>>, stmt: Stmt, node: NodeId, line: u32) -> Option<
        LoopVarCaptureHitView,
    > {
        match stmt {
            Stmt::ClosureCapture { captured, kind } => match first_held(
                held,
                text::views(captured@),
            ) {
                Some(var) => Some(LoopVarCaptureHitView { var, kind, node, source_line: line }),
                None => None,
            },
            _ => None,
        }
    }

    fn find_hit(&self, held: &NameSet, stmt: &Stmt, node: NodeId, line: u32) -> (hit: Option<
        LoopVarCaptureHit,
    >) {
        match stmt {
            Stmt::ClosureCapture { captured, kind } => match find_held(held, captured) {
                Some(var) => Some(LoopVarCaptureHit { var, kind: *kind, node, source_line: line }),
                None => None,
            },
            _ => None,
        }
    }
}

/// The first argument of the form `&name` whose name is in the set, as the name.
pub open spec fn first_addressed(held: Set<Seq<char>>, args: Seq<Seq<char>>) -> Option<Seq<char>>
    decreases args.len(),
{
    if args.len() == 0 {
        None
    } else if args[0].len() > 0 && args[0][0] == '&' && held.contains(args[0].drop_first()) {
        Some(args[0].drop_first())
    } else {
        first_addressed(held, args.drop_first())
    }
}

fn find_addressed(held: &NameSet, args: &Vec<String>) -> (found: Option<String>)
    ensures
        match found {
            Some(name) => first_addressed(held@, text::views(args@)) == Some(name@),
            None => first_addressed(held@, text::views(args@)) is None,
        },
{
    let ghost all = text::views(args@);
    let mut i: usize = 0;
    proof {
        assert(all.skip(0) =~= all);
    }
    while i < args.len()
        invariant
            0 <= i <= args@.len(),
            all == text::views(args@),
            first_addressed(held@, all) == first_addressed(held@, all.skip(i as int)),
        decreases args.len() - i,
    {
        let arg: &str = args[i].as_str();
        proof {
            assert(all.skip(i as int)[0] == arg@);
            assert(all.skip(i as int).drop_first() =~= all.skip(i + 1));
        }
        let len: usize = arg.unicode_len();
        if len > 0 && arg.get_char(0) == '&' {
            let name: &str = arg.substring_char(1, len);
            proof {
                assert(name@ =~= arg@.drop_first());
            }
            if held.contains(name) {
                return Some(name.to_owned());
            }
        }
        i += 1;
    }
    None
}

impl HitRule for AddressRule {
    type Hit = LoopVarAddressHit;

    open spec fn hit_on(&self, held: Set<Seq<char>>, stmt: Stmt, node: NodeId, line: u32) -> Option<
        LoopVarAddressHitView,
    > {
        match stmt {
            Stmt::Assign { lhs, rhs: RhsShape::AddressOf { of } } => if held.contains(of@) {
                Some(LoopVarAddressHitView { var: of@, node, source_line: line })
            } else {
                None
            },
            Stmt::Call { target, args, assigned_to } => match first_addressed(
                held,
                text::views(args@),
            ) {
                Some(var) => Some(LoopVarAddressHitView { var, node, source_line: line }),
                None => None,
            },
            _ => None,
        }
    }

    fn find_hit(&self, held: &NameSet, stmt: &Stmt, node: NodeId, line: u32) -> (hit: Option<
        LoopVarAddressHit,
    >) {
        match stmt {
            Stmt::Assign { lhs: _, rhs: RhsShape::AddressOf { of } } => {
                if held.contains(of.as_str()) {
                    Some(LoopVarAddressHit { var: of.clone(), node, source_line: line })
                } else {
                    None
                }
            },
            Stmt::Call { target: _, args, assigned_to: _ } => match find_addressed(held, args) {
                Some(var) => Some(LoopVarAddressHit { var, node, source_line: line }),
                None => None,
            },
            _ => None,
        }
    }
}

/// `go func() { }` or `defer func() { }` that captures a loop variable by
/// reference: one hit per closure, for the first loop variable it captures.
pub fn check_capture(cfg: &Cfg<Stmt>) -> (hits: Vec<LoopVarCaptureHit>)
    requires
        cfg.well_formed(),
    ensures
        text::views(hits@) == name_facts::hits_in(CaptureRule, *cfg, cfg.nodes@.len()),
{
    name_facts::scan(&CaptureRule, cfg)
}

/// `&loopVar`, assigned directly or passed as a call argument: one hit per
/// statement, for the first such argument.
pub fn check_address(cfg: &Cfg<Stmt>) -> (hits: Vec<LoopVarAddressHit>)
    requires
        cfg.well_formed(),
    ensures
        text::views(hits@) == name_facts::hits_in(AddressRule, *cfg, cfg.nodes@.len()),
{
    name_facts::scan(&AddressRule, cfg)
}

/// A self-copy ends its variable's time as a loop variable, and leaves the
/// others alone.
pub proof fn self_copy_unbinds(held: Set<Seq<char>>, stmt: Stmt, other: Seq<char>)
    requires
        stmt matches Stmt::Assign { lhs, rhs: RhsShape::Var(from) } && lhs@ == from@ && other != lhs@,
    ensures
        stmt matches Stmt::Assign { lhs, rhs } && !loopvar_flow(held, stmt).contains(lhs@),
        loopvar_flow(held, stmt).contains(other) == held.contains(other),
{
}

/// A variable is one of a loop from where a loop binds it until it is copied to
/// itself; no other statement changes that, and no other variable changes.
pub proof fn loop_variables_stay_until_they_are_copied(
    held: Set<Seq<char>>,
    stmt: Stmt,
    name: Seq<char>,
)
    ensures
        stmt matches Stmt::LoopVarBind { vars } ==> (loopvar_flow(held, stmt).contains(name)
            <==> held.contains(name) || exists|i: int|
            0 <= i < vars@.len() && (#[trigger] vars@[i])@ == name),
        stmt matches Stmt::Assign { lhs, rhs: RhsShape::Var(from) } ==> (loopvar_flow(
            held,
            stmt,
        ).contains(name) <==> held.contains(name) && !(lhs@ == from@ && name == lhs@)),
        !(stmt is LoopVarBind) && !(stmt matches Stmt::Assign { lhs, rhs: RhsShape::Var(from) })
            ==> loopvar_flow(held, stmt) == held,
{
    if let Stmt::LoopVarBind { vars } = stmt {
        let views = text::views(vars@);
        if views.contains(name) {
            let i = choose|i: int| 0 <= i < views.len() && views[i] == name;
            assert(vars@[i]@ == name);
        }
        if exists|i: int| 0 <= i < vars@.len() && (#[trigger] vars@[i])@ == name {
            let i = choose|i: int| 0 <= i < vars@.len() && (#[trigger] vars@[i])@ == name;
            assert(views[i] == name);
        }
    }
}

proof fn lemma_first_held(held: Set<Seq<char>>, names: Seq<Seq<char>>, i: int)
    requires
        0 <= i < names.len(),
        held.contains(names[i]),
        forall|j: int| 0 <= j < i ==> !held.contains(#[trigger] names[j]),
    ensures
        first_held(held, names) == Some(names[i]),
    decreases names.len(),
{
    if i > 0 {
        assert(!held.contains(names[0]));
        let rest = names.drop_first();
        assert forall|j: int| 0 <= j < i - 1 implies !held.contains(#[trigger] rest[j]) by {
            assert(rest[j] == names[j + 1]);
        }
        assert(rest[i - 1] == names[i]);
        lemma_first_held(held, rest, i - 1);
    }
}

proof fn lemma_none_held(held: Set<Seq<char>>, names: Seq<Seq<char>>)
    requires
        forall|j: int| 0 <= j < names.len() ==> !held.contains(#[trigger] names[j]),
    ensures
        first_held(held, names) is None,
    decreases names.len(),
{
    if names.len() > 0 {
        assert(!held.contains(names[0]));
        let rest = names.drop_first();
        assert forall|j: int| 0 <= j < rest.len() implies !held.contains(#[trigger] rest[j]) by {
            assert(rest[j] == names[j + 1]);
        }
        lemma_none_held(held, rest);
    }
}

/// A closure that captures a loop variable is reported with the first that it
/// captures and how it runs; one that captures none is not.
pub proof fn captured_loop_variables_are_reported(
    held: Set<Seq<char>>,
    captured: Vec<String>,
    kind: ClosureKind,
    node: NodeId,
    line: u32,
    i: int,
)
    ensures
        ({
            let stmt = Stmt::ClosureCapture { captured, kind };
            &&& 0 <= i < captured@.len() && held.contains(captured@[i]@) && (forall|j: int|
                0 <= j < i ==> !held.contains((#[trigger] captured@[j])@)) ==> CaptureRule.hit_on(
                held,
                stmt,
                node,
                line,
            ) == Some(
                LoopVarCaptureHitView { var: captured@[i]@, kind, node, source_line: line },
            )
            &&& (forall|j: int|
                0 <= j < captured@.len() ==> !held.contains((#[trigger] captured@[j])@))
                ==> CaptureRule.hit_on(held, stmt, node, line) is None
        }),
{
    let names = text::views(captured@);
    if 0 <= i < captured@.len() && held.contains(captured@[i]@) && (forall|j: int|
        0 <= j < i ==> !held.contains((#[trigger] captured@[j])@)) {
        assert forall|j: int| 0 <= j < i implies !held.contains(#[trigger] names[j]) by {
            assert(names[j] == captured@[j]@);
        }
        lemma_first_held(held, names, i);
    }
    if forall|j: int| 0 <= j < captured@.len() ==> !held.contains((#[trigger] captured@[j])@) {
        assert forall|j: int| 0 <= j < names.len() implies !held.contains(#[trigger] names[j]) by {
            assert(names[j] == captured@[j]@);
        }
        lemma_none_held(held, names);
    }
}

/// Argument `i` takes the address of a loop variable.
pub open spec fn addresses(held: Set<Seq<char>>, arg: Seq<char>, var: Seq<char>) -> bool {
    arg == seq!['&'] + var && held.contains(var)
}

proof fn lemma_first_addressed(held: Set<Seq<char>>, args: Seq<Seq<char>>, i: int, var: Seq<char>)
    requires
        0 <= i < args.len(),
        addresses(held, args[i], var),
        forall|j: int, v: Seq<char>| 0 <= j < i ==> !#[trigger] addresses(held, args[j], v),
    ensures
        first_addressed(held, args) == Some(var),
    decreases args.len(),
{
    assert(args[i].drop_first() =~= var);
    if i > 0 {
        let own = args[0].drop_first();
        assert(!addresses(held, args[0], own));
        if args[0].len() > 0 && args[0][0] == '&' {
            assert(args[0] =~= seq!['&'] + own);
        }
        let rest = args.drop_first();
        assert forall|j: int, v: Seq<char>| 0 <= j < i - 1 implies !#[trigger] addresses(
            held,
            rest[j],
            v,
        ) by {
            assert(rest[j] == args[j + 1]);
            assert(!addresses(held, args[j + 1], v));
        }
        assert(rest[i - 1] == args[i]);
        lemma_first_addressed(held, rest, i - 1, var);
    }
}

proof fn lemma_none_addressed(held: Set<Seq<char>>, args: Seq<Seq<char>>)
    requires
        forall|j: int, v: Seq<char>| 0 <= j < args.len() ==> !#[trigger] addresses(held, args[j], v),
    ensures
        first_addressed(held, args) is None,
    decreases args.len(),
{
    if args.len() > 0 {
        let own = args[0].drop_first();
        assert(!addresses(held, args[0], own));
        if args[0].len() > 0 && args[0][0] == '&' {
            assert(args[0] =~= seq!['&'] + own);
        }
        let rest = args.drop_first();
        assert forall|j: int, v: Seq<char>| 0 <= j < rest.len() implies !#[trigger] addresses(
            held,
            rest[j],
            v,
        ) by {
            assert(rest[j] == args[j + 1]);
            assert(!addresses(held, args[j + 1], v));
        }
        lemma_none_addressed(held, rest);
    }
}

/// Taking the address of a loop variable is reported, in an assignment and in the
/// arguments of any call, there the first; without one nothing is.
pub proof fn addressed_loop_variables_are_reported(
    held: Set<Seq<char>>,
    stmt: Stmt,
    node: NodeId,
    line: u32,
    i: int,
    var: Seq<char>,
)
    ensures
        stmt matches Stmt::Assign { lhs, rhs: RhsShape::AddressOf { of } } ==> AddressRule.hit_on(
            held,
            stmt,
            node,
            line,
        ) == if held.contains(of@) {
            Some(LoopVarAddressHitView { var: of@, node, source_line: line })
        } else {
            None
        },
        stmt matches Stmt::Call { target, args, assigned_to } ==> {
            &&& 0 <= i < args@.len() && addresses(held, args@[i]@, var) && (forall|
                j: int,
                v: Seq<char>,
            |
                0 <= j < i ==> !#[trigger] addresses(held, args@[j]@, v)) ==> AddressRule.hit_on(
                held,
                stmt,
                node,
                line,
            ) == Some(LoopVarAddressHitView { var, node, source_line: line })
            &&& (forall|j: int, v: Seq<char>|
                0 <= j < args@.len() ==> !#[trigger] addresses(held, args@[j]@, v))
                ==> AddressRule.hit_on(held, stmt, node, line) is None
        },
        !(stmt is Assign) && !(stmt is Call) ==> AddressRule.hit_on(held, stmt, node, line) is None,
        !(stmt is ClosureCapture) ==> CaptureRule.hit_on(held, stmt, node, line) is None,
{
    if let Stmt::Call { target, args, assigned_to } = stmt {
        let names = text::views(args@);
        if 0 <= i < args@.len() && addresses(held, args@[i]@, var) && (forall|j: int, v: Seq<char>|
            0 <= j < i ==> !#[trigger] addresses(held, args@[j]@, v)) {
            assert forall|j: int, v: Seq<char>| 0 <= j < i implies !#[trigger] addresses(
                held,
                names[j],
                v,
            ) by {
                assert(!addresses(held, args@[j]@, v));
            }
            lemma_first_addressed(held, names, i, var);
        }
        if forall|j: int, v: Seq<char>|
            0 <= j < args@.len() ==> !#[trigger] addresses(held, args@[j]@, v) {
            assert forall|j: int, v: Seq<char>| 0 <= j < names.len() implies !#[trigger] addresses(
                held,
                names[j],
                v,
            ) by {
                assert(!addresses(held, args@[j]@, v));
            }
            lemma_none_addressed(held, names);
        }
    }
}

} // verus!
