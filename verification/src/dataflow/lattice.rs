//! The join contract that a rule's dataflow facts satisfy, so that the
//! worklist solver reaches a fixpoint. Minimal on purpose: no meet, no top.

use vstd::prelude::*;
use vstd::std_specs::cmp::PartialEqSpec;

verus! {

/// Facts that can be ordered by how much they say and merged where paths meet.
pub trait Lattice: Clone + PartialEq + Sized {
    /// The value is a proper representation of a fact.
    spec fn valid(&self) -> bool;

    /// The value says nothing yet.
    spec fn is_bottom(&self) -> bool;

    /// Everything `self` says, `other` says too.
    spec fn below(&self, other: &Self) -> bool;

    /// `merged` is what remains where a path with `self` meets one with `other`.
    spec fn joins(&self, other: &Self, merged: &Self) -> bool;

    /// How much the value says. A chain of facts that grow climbs in rank.
    spec fn rank(&self) -> nat;

    /// The "no information yet" value: what an unreached node starts at.
    fn bottom() -> (fact: Self)
        ensures
            fact.valid(),
            fact.is_bottom(),
    ;

    /// Merges facts from two predecessors.
    fn join(&self, other: &Self) -> (merged: Self)
        requires
            self.valid(),
            other.valid(),
        ensures
            merged.valid(),
            self.joins(other, &merged),
    ;

    /// `below` is reflexive.
    proof fn below_reflexive(a: Self)
        requires
            a.valid(),
        ensures
            a.below(&a),
    ;

    /// `below` is transitive.
    proof fn below_transitive(a: Self, b: Self, c: Self)
        requires
            a.valid(),
            b.valid(),
            c.valid(),
            a.below(&b),
            b.below(&c),
        ensures
            a.below(&c),
    ;

    /// `==` holds exactly of facts that say the same.
    proof fn eq_is_mutual_below(a: Self, b: Self)
        requires
            a.valid(),
            b.valid(),
        ensures
            Self::obeys_eq_spec(),
            a.eq_spec(&b) <==> a.below(&b) && b.below(&a),
    ;

    /// A bottom value is below every fact.
    proof fn bottom_is_least(a: Self, b: Self)
        requires
            a.valid(),
            b.valid(),
            a.is_bottom(),
        ensures
            a.below(&b),
    ;

    /// Merging never loses information: more on either side merges to more.
    proof fn join_is_monotone(a: Self, b: Self, m: Self, a2: Self, b2: Self, m2: Self)
        requires
            a.valid(),
            b.valid(),
            m.valid(),
            a2.valid(),
            b2.valid(),
            m2.valid(),
            a.below(&a2),
            b.below(&b2),
            a.joins(&b, &m),
            a2.joins(&b2, &m2),
        ensures
            m.below(&m2),
    ;

    /// Saying strictly more is of strictly greater rank.
    proof fn rank_climbs(a: Self, b: Self)
        requires
            a.valid(),
            b.valid(),
            a.below(&b),
        ensures
            a.rank() <= b.rank(),
            !b.below(&a) ==> a.rank() < b.rank(),
    ;
}

} // verus!
