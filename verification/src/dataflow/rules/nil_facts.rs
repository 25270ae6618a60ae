//! Which variables may be nil.

use vstd::prelude::*;

use crate::dataflow::cfg::{CallTarget, GuardOp, RhsShape, Stmt};
use crate::dataflow::summaries;
use crate::dataflow::summaries::Summaries;
use crate::dataflow::taint;
use crate::names::NameSet;

verus! {

/// The variables that may be nil after a statement: a nil literal, an `== nil`
/// guard and a call summarised as such make one of the variable they are about,
/// a copy passes it on, and any other assignment and a `!= nil` guard end it.
pub open spec fn nil_flow(summaries: Option<Summaries>, held: Set<Seq<char>>, stmt: Stmt) -> Set<
    Seq<char>,
> {
    match stmt {
        Stmt::Assign { lhs, rhs: RhsShape::NilLiteral } => held.insert(lhs@),
        Stmt::Assign { lhs, rhs: RhsShape::Var(from) } => taint::set_to(
            held,
            lhs@,
            held.contains(from@),
        ),
        Stmt::Assign { lhs, rhs } => held.remove(lhs@),
        Stmt::Call { target: CallTarget::Named(name), args, assigned_to: Some(v) } => taint::set_to(
            held,
            v@,
            summaries::summarized(summaries, name@),
        ),
        Stmt::Call { target, args, assigned_to: Some(v) } => held.remove(v@),
        Stmt::Guard { var, op, against } => taint::set_to(held, var@, op is Equal),
        _ => held,
    }
}

/// The variable that a statement may make nil.
pub open spec fn nil_target(stmt: Stmt) -> Set<Seq<char>> {
    match stmt {
        Stmt::Assign { lhs, rhs } => Set::empty().insert(lhs@),
        Stmt::Call { target, args, assigned_to: Some(v) } => Set::empty().insert(v@),
        Stmt::Guard { var, op, against } => Set::empty().insert(var@),
        _ => Set::empty(),
    }
}

/// The variables that may be nil after a statement.
pub fn nil_step(summaries: Option<&Summaries>, held: &NameSet, stmt: &Stmt) -> (after: NameSet)
    ensures
        after@ == nil_flow(summaries::owned(summaries), held@, *stmt),
{
    match stmt {
        Stmt::Assign { lhs, rhs: RhsShape::NilLiteral } => taint::with_name(
            held,
            lhs.as_str(),
            true,
        ),
        Stmt::Assign { lhs, rhs: RhsShape::Var(from) } => taint::with_name(
            held,
            lhs.as_str(),
            held.contains(from.as_str()),
        ),
        Stmt::Assign { lhs, rhs: _ } => taint::with_name(held, lhs.as_str(), false),
        Stmt::Call { target: CallTarget::Named(name), args: _, assigned_to: Some(v) } => {
            taint::with_name(
                held,
                v.as_str(),
                summaries::is_summarized(summaries, name.as_str()),
            )
        },
        Stmt::Call { target: _, args: _, assigned_to: Some(v) } => taint::with_name(
            held,
            v.as_str(),
            false,
        ),
        Stmt::Guard { var, op: GuardOp::NotEqual, against: _ } => taint::with_name(
            held,
            var.as_str(),
            false,
        ),
        Stmt::Guard { var, op: GuardOp::Equal, against: _ } => taint::with_name(
            held,
            var.as_str(),
            true,
        ),
        _ => held.dup(),
    }
}

/// A statement treats the variables that may be nil one by one.
pub proof fn lemma_nil_additive(
    summaries: Option<Summaries>,
    a: Set<Seq<char>>,
    b: Set<Seq<char>>,
    stmt: Stmt,
)
    ensures
        nil_flow(summaries, a.union(b), stmt) == nil_flow(summaries, a, stmt).union(
            nil_flow(summaries, b, stmt),
        ),
{
    assert(nil_flow(summaries, a.union(b), stmt) =~= nil_flow(summaries, a, stmt).union(
        nil_flow(summaries, b, stmt),
    ));
}

/// The more functions are known to return nil, the more variables may be nil.
pub proof fn lemma_nil_grows(less: Option<Summaries>, more: Option<Summaries>)
    requires
        summaries::says_no_more(less, more),
    ensures
        forall|a: Set<Seq<char>>, b: Set<Seq<char>>, stmt: Stmt|
            #![trigger nil_flow(less, a, stmt), nil_flow(more, b, stmt)]
            a.subset_of(b) ==> nil_flow(less, a, stmt).subset_of(nil_flow(more, b, stmt)),
{
}

/// What a statement does to what may be nil: a variable may be nil behind an
/// assignment of nil, a copy of one that may be, a call of a function that is known
/// to return nil, and a check that it is nil. Any other assignment, and a check
/// that it is not nil, clears it. No other variable changes, and no other statement
/// changes anything.
pub proof fn nil_comes_from_these(
    summaries: Option<Summaries>,
    held: Set<Seq<char>>,
    stmt: Stmt,
    other: Seq<char>,
)
    ensures
        stmt matches Stmt::Assign { lhs, rhs } ==> {
            let after = nil_flow(summaries, held, stmt);
            &&& rhs is NilLiteral ==> after.contains(lhs@)
            &&& rhs matches RhsShape::Var(from) ==> (after.contains(lhs@) <==> held.contains(from@))
            &&& !(rhs is NilLiteral) && !(rhs is Var) ==> !after.contains(lhs@)
            &&& other != lhs@ ==> (after.contains(other) <==> held.contains(other))
        },
        stmt matches Stmt::Call { target, args, assigned_to } ==> match assigned_to {
            Some(v) => {
                let after = nil_flow(summaries, held, stmt);
                &&& after.contains(v@) <==> (target matches CallTarget::Named(name) && (summaries
                    matches Some(s) && s@.contains_key(name@) && s@[name@]))
                &&& other != v@ ==> (after.contains(other) <==> held.contains(other))
            },
            None => nil_flow(summaries, held, stmt) == held,
        },
        stmt matches Stmt::Guard { var, op, against } ==> {
            let after = nil_flow(summaries, held, stmt);
            &&& after.contains(var@) <==> op is Equal
            &&& other != var@ ==> (after.contains(other) <==> held.contains(other))
        },
        !(stmt is Assign) && !(stmt is Call) && !(stmt is Guard) ==> nil_flow(summaries, held, stmt)
            == held,
{
}

} // verus!
