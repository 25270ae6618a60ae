//! Sets of names.

use vstd::prelude::*;
use vstd::std_specs::cmp::PartialEqSpecImpl;

use crate::text;

verus! {

/// A set of names.
#[derive(Debug)]
pub struct NameSet {
    items: Vec<String>,
}

impl View for NameSet {
    type V = Set<Seq<char>>;

    closed spec fn view(&self) -> Set<Seq<char>> {
        text::views(self.items@).to_set()
    }
}

impl NameSet {
    /// The view of a set of names is finite.
    pub proof fn lemma_finite(&self)
        ensures
            self@.finite(),
    {
        broadcast use vstd::seq_lib::seq_to_set_is_finite;
    }

    /// The empty set.
    pub fn new() -> (set: Self)
        ensures
            set@ == Set::<Seq<char>>::empty(),
    {
        let set = NameSet { items: Vec::new() };
        assert(set@ =~= Set::<Seq<char>>::empty());
        set
    }

    /// Whether `name` is in the set.
    pub fn contains(&self, name: &str) -> (found: bool)
        ensures
            found == self@.contains(name@),
    {
        let found: bool = text::contains_text(&self.items, name);
        found
    }

    /// Adds `name` to the set.
    pub fn insert(&mut self, name: &str)
        ensures
            final(self)@ == old(self)@.insert(name@),
    {
        if !self.contains(name) {
            let ghost before = self.items@;
            self.items.push(name.to_owned());
            proof {
                let now = text::views(self.items@);
                assert(now =~= text::views(before).push(name@));
                assert(now.to_set() =~= text::views(before).to_set().insert(name@)) by {
                    assert forall|x: Seq<char>| now.contains(x) <==> text::views(before).contains(
                        x,
                    ) || x == name@ by {
                        text::lemma_push_contains(text::views(before), name@, x);
                    }
                }
            }
        } else {
            assert(self@ =~= self@.insert(name@));
        }
    }

    /// Removes `name` from the set.
    pub fn remove(&mut self, name: &str)
        ensures
            final(self)@ == old(self)@.remove(name@),
    {
        let mut kept: Vec<String> = Vec::new();
        let mut i: usize = 0;
        while i < self.items.len()
            invariant
                0 <= i <= self.items@.len(),
                forall|x: Seq<char>| #[trigger]
                    text::views(kept@).contains(x) <==> x != name@ && text::views(
                        self.items@.take(i as int),
                    ).contains(x),
            decreases self.items.len() - i,
        {
            let ghost kept0 = kept@;
            proof {
                assert(text::views(self.items@.take(i + 1)) =~= text::views(
                    self.items@.take(i as int),
                ).push(self.items@[i as int]@));
                assert forall|x: Seq<char>| #[trigger]
                    text::views(self.items@.take(i + 1)).contains(x) <==> text::views(
                        self.items@.take(i as int),
                    ).contains(x) || x == self.items@[i as int]@ by {
                    text::lemma_push_contains(
                        text::views(self.items@.take(i as int)),
                        self.items@[i as int]@,
                        x,
                    );
                }
            }
            if !text::same(self.items[i].as_str(), name) {
                kept.push(self.items[i].clone());
                proof {
                    assert(text::views(kept@) =~= text::views(kept0).push(self.items@[i as int]@));
                    assert forall|x: Seq<char>| #[trigger]
                        text::views(kept@).contains(x) <==> text::views(kept0).contains(x) || x
                            == self.items@[i as int]@ by {
                        text::lemma_push_contains(text::views(kept0), self.items@[i as int]@, x);
                    }
                }
            }
            i += 1;
        }
        proof {
            assert(self.items@.take(self.items@.len() as int) =~= self.items@);
            assert(text::views(kept@).to_set() =~= text::views(self.items@).to_set().remove(name@));
        }
        self.items = kept;
    }

    /// The names in either set.
    pub fn union(&self, other: &NameSet) -> (both: NameSet)
        ensures
            both@ == self@.union(other@),
    {
        let mut both: NameSet = self.dup();
        let mut i: usize = 0;
        while i < other.items.len()
            invariant
                0 <= i <= other.items@.len(),
                both@ == self@.union(text::views(other.items@.take(i as int)).to_set()),
            decreases other.items.len() - i,
        {
            let ghost before = both@;
            both.insert(other.items[i].as_str());
            proof {
                let shorter = text::views(other.items@.take(i as int));
                let longer = text::views(other.items@.take(i + 1));
                assert(longer =~= shorter.push(other.items@[i as int]@));
                assert(both@ =~= self@.union(longer.to_set())) by {
                    assert forall|x: Seq<char>| both@.contains(x) <==> self@.union(
                        longer.to_set(),
                    ).contains(x) by {
                        text::lemma_push_contains(shorter, other.items@[i as int]@, x);
                    }
                }
            }
            i += 1;
        }
        proof {
            assert(other.items@.take(other.items@.len() as int) =~= other.items@);
        }
        both
    }

    /// A copy of the set.
    pub fn dup(&self) -> (copy: NameSet)
        ensures
            copy@ == self@,
    {
        let items: Vec<String> = self.items.clone();
        proof {
            assert(text::views(items@) =~= text::views(self.items@));
        }
        NameSet { items }
    }

    /// Whether every name of the set is in the other.
    pub fn subset_of(&self, other: &NameSet) -> (r: bool)
        ensures
            r == self@.subset_of(other@),
    {
        let mut i: usize = 0;
        while i < self.items.len()
            invariant
                0 <= i <= self.items@.len(),
                forall|k: int| 0 <= k < i ==> other@.contains((#[trigger] self.items@[k])@),
            decreases self.items.len() - i,
        {
            if !other.contains(self.items[i].as_str()) {
                proof {
                    let mine = text::views(self.items@);
                    assert(mine[i as int] == self.items@[i as int]@);
                    assert(mine.contains(self.items@[i as int]@));
                    assert(self@.contains(self.items@[i as int]@));
                }
                return false;
            }
            i += 1;
        }
        proof {
            assert forall|x: Seq<char>| self@.contains(x) implies other@.contains(x) by {
                let mine = text::views(self.items@);
                let k = choose|k: int| 0 <= k < mine.len() && mine[k] == x;
                assert(other@.contains(self.items@[k]@));
            }
        }
        true
    }
}

impl Clone for NameSet {
    fn clone(&self) -> (copy: Self)
        ensures
            copy@ == self@,
    {
        self.dup()
    }
}

impl PartialEq for NameSet {
    fn eq(&self, other: &Self) -> (r: bool) {
        let r: bool = self.subset_of(other) && other.subset_of(self);
        proof {
            if r {
                assert(self@ =~= other@);
            }
        }
        r
    }
}

impl PartialEqSpecImpl for NameSet {
    open spec fn obeys_eq_spec() -> bool {
        true
    }

    open spec fn eq_spec(&self, other: &Self) -> bool {
        self@ == other@
    }
}

} // verus!
