//! What is known of functions by name.

use vstd::hash_map::StringHashMap;
use vstd::prelude::*;

verus! {

/// A yes-or-no summary of functions, by bare name. A function without an entry
/// is an unknown boundary.
pub struct Summaries {
    entries: StringHashMap<bool>,
}

impl View for Summaries {
    type V = Map<Seq<char>, bool>;

    closed spec fn view(&self) -> Map<Seq<char>, bool> {
        self.entries@
    }
}

impl Summaries {
    /// No summaries.
    pub fn new() -> (s: Self)
        ensures
            s@ == Map::<Seq<char>, bool>::empty(),
    {
        Summaries { entries: StringHashMap::new() }
    }

    /// Records `summary` for the function `name`, over any earlier one.
    pub fn insert(&mut self, name: String, summary: bool)
        ensures
            final(self)@ == old(self)@.insert(name@, summary),
    {
        self.entries.insert(name, summary);
    }

    /// Whether there is a summary for `name` and it is "yes".
    pub fn says(&self, name: &str) -> (r: bool)
        ensures
            r == summarized(Some(*self), name@),
    {
        match self.entries.get(name) {
            Some(summary) => *summary,
            None => false,
        }
    }
}

/// There are summaries, and the one for `name` is "yes".
pub open spec fn summarized(summaries: Option<Summaries>, name: Seq<char>) -> bool {
    match summaries {
        Some(s) => s@.contains_key(name) && s@[name],
        None => false,
    }
}

/// Whether there are summaries and the one for `name` is "yes".
pub fn is_summarized(summaries: Option<&Summaries>, name: &str) -> (r: bool)
    ensures
        r == summarized(owned(summaries), name@),
{
    match summaries {
        Some(s) => s.says(name),
        None => false,
    }
}

/// The summaries that a reference gives, if any.
pub open spec fn owned(summaries: Option<&Summaries>) -> Option<Summaries> {
    match summaries {
        Some(s) => Some(*s),
        None => None,
    }
}

/// Whatever the one says "yes" to, the other says "yes" to.
pub open spec fn says_no_more(less: Option<Summaries>, more: Option<Summaries>) -> bool {
    forall|name: Seq<char>| #[trigger] summarized(less, name) ==> summarized(more, name)
}

/// What is said of a function is what was last recorded of it; of one that nothing
/// was recorded of, and without records, nothing is said.
pub proof fn summaries_say_what_was_recorded(s: Summaries, name: Seq<char>)
    ensures
        s@.contains_key(name) && s@[name] ==> summarized(Some(s), name),
        s@.contains_key(name) && !s@[name] ==> !summarized(Some(s), name),
        !s@.contains_key(name) ==> !summarized(Some(s), name),
        !summarized(None, name),
{
}

} // verus!
