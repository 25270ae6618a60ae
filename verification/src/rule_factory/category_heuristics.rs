//! A first guess at the category of free text, by keywords.

use vstd::prelude::*;

use crate::text;

verus! {

/// The text holds one of the words.
pub open spec fn holds_any(s: Seq<char>, words: Seq<Seq<char>>) -> bool
    decreases words.len(),
{
    words.len() > 0 && (holds_any(s, words.drop_last()) || text::has(s, words.last()))
}

/// The words that speak of security.
pub open spec fn security_keywords() -> Seq<Seq<char>> {
    seq![
        "inject"@,
        "vulnerab"@,
        "secret"@,
        "credential"@,
        "xss"@,
        "csrf"@,
        "sanitiz"@,
        "escape"@,
        "auth"@,
        "password"@,
        "token"@,
    ]
}

/// The words that speak of performance.
pub open spec fn performance_keywords() -> Seq<Seq<char>> {
    seq![
        "slow"@,
        "performance"@,
        "n+1"@,
        "allocat"@,
        "loop"@,
        "o(n"@,
        "cache"@,
        "latency"@,
    ]
}

/// The words that speak of design.
pub open spec fn design_keywords() -> Seq<Seq<char>> {
    seq![
        "naming"@,
        "extract"@,
        "duplicat"@,
        "readab"@,
        "abstraction"@,
        "coupling"@,
        "responsibility"@,
    ]
}

/// The category of a text in lower case: the first whose keywords it holds, and
/// correctness without any.
pub open spec fn category_of(lower: Seq<char>) -> Seq<char> {
    if holds_any(lower, security_keywords()) {
        "security"@
    } else if holds_any(lower, performance_keywords()) {
        "performance"@
    } else if holds_any(lower, design_keywords()) {
        "design"@
    } else {
        "correctness"@
    }
}

fn any_in(s: &str, words: &[&str]) -> (r: bool)
    ensures
        r == holds_any(s@, text::views(words@)),
{
    let ghost all = text::views(words@);
    let mut found: bool = false;
    let mut i: usize = 0;
    while i < words.len()
        invariant
            0 <= i <= words@.len(),
            all == text::views(words@),
            found == holds_any(s@, all.take(i as int)),
        decreases words.len() - i,
    {
        proof {
            assert(all.take(i + 1).drop_last() =~= all.take(i as int));
            assert(all.take(i + 1).last() == words@[i as int]@);
        }
        if text::contains(s, words[i]) {
            found = true;
        }
        i += 1;
    }
    proof {
        assert(all.take(all.len() as int) =~= all);
    }
    found
}

/// The category of a text in lower case.
pub fn guess_category_lowered(lower: &str) -> (category: &'static str)
    ensures
        category@ == category_of(lower@),
{
    let security: [&str; 11] = [
        "inject",
        "vulnerab",
        "secret",
        "credential",
        "xss",
        "csrf",
        "sanitiz",
        "escape",
        "auth",
        "password",
        "token",
    ];
    let performance: [&str; 8] = [
        "slow",
        "performance",
        "n+1",
        "allocat",
        "loop",
        "o(n",
        "cache",
        "latency",
    ];
    let design: [&str; 7] = [
        "naming",
        "extract",
        "duplicat",
        "readab",
        "abstraction",
        "coupling",
        "responsibility",
    ];
    proof {
        assert(text::views(security@) =~= security_keywords());
        assert(text::views(performance@) =~= performance_keywords());
        assert(text::views(design@) =~= design_keywords());
    }
    if any_in(lower, &security) {
        "security"
    } else if any_in(lower, &performance) {
        "performance"
    } else if any_in(lower, &design) {
        "design"
    } else {
        "correctness"
    }
}

/// A first guess at the category of a text, whatever its case.
pub fn guess_category(text: &str) -> (category: String)
    ensures
        category@ == category_of(text::lowercase(text@)),
        text::is_ascii_text(text@) ==> category@ == category_of(text::ascii_lowered(text@)),
{
    let lower: String = text::to_lower(text);
    guess_category_lowered(lower.as_str()).to_owned()
}

/// A text that speaks of security is filed under security, whatever else it
/// speaks of.
pub proof fn security_comes_first(lower: Seq<char>)
    requires
        holds_any(lower, security_keywords()),
    ensures
        category_of(lower) == "security"@,
{
}

/// A text is filed under one of four categories.
pub proof fn there_are_four_categories(lower: Seq<char>)
    ensures
        category_of(lower) == "security"@ || category_of(lower) == "performance"@ || category_of(
            lower,
        ) == "design"@ || category_of(lower) == "correctness"@,
{
}

proof fn lemma_holds_joined(a: Seq<char>, b: Seq<char>, words: Seq<Seq<char>>)
    requires
        holds_any(a, words),
    ensures
        holds_any(a + b, words),
        holds_any(b + a, words),
    decreases words.len(),
{
    if holds_any(a, words.drop_last()) {
        lemma_holds_joined(a, b, words.drop_last());
    } else {
        text::lemma_has_joined(a, b, words.last());
    }
}

/// A text under security stays there, whatever is written in front of it or
/// behind it.
pub proof fn security_stays_first(a: Seq<char>, b: Seq<char>)
    requires
        category_of(a) == "security"@,
    ensures
        category_of(a + b) == "security"@,
        category_of(b + a) == "security"@,
{
    reveal_strlit("security");
    reveal_strlit("performance");
    reveal_strlit("design");
    reveal_strlit("correctness");
    assert("security"@.len() == 8 && "performance"@.len() == 11 && "design"@.len() == 6
        && "correctness"@.len() == 11);
    lemma_holds_joined(a, b, security_keywords());
}

/// An ASCII text under security stays there, whatever ASCII text is written in
/// front of it or behind it, and in whatever case.
pub proof fn security_stays_first_in_any_case(a: Seq<char>, b: Seq<char>)
    requires
        text::is_ascii_text(a),
        text::is_ascii_text(b),
        category_of(text::ascii_lowered(a)) == "security"@,
    ensures
        text::is_ascii_text(a + b) && text::is_ascii_text(b + a),
        category_of(text::ascii_lowered(a + b)) == "security"@,
        category_of(text::ascii_lowered(b + a)) == "security"@,
{
    security_stays_first(text::ascii_lowered(a), text::ascii_lowered(b));
    assert(text::ascii_lowered(a + b) =~= text::ascii_lowered(a) + text::ascii_lowered(b));
    assert(text::ascii_lowered(b + a) =~= text::ascii_lowered(b) + text::ascii_lowered(a));
}

/// The category of an ASCII text does not depend on its case.
pub proof fn case_does_not_count(a: Seq<char>)
    requires
        text::is_ascii_text(a),
    ensures
        text::is_ascii_text(text::ascii_uppered(a)),
        category_of(text::ascii_lowered(text::ascii_uppered(a))) == category_of(
            text::ascii_lowered(a),
        ),
{
    text::lemma_case_is_lost(a);
}

/// The words that tell of a category: those of security before those of performance
/// before those of design; a text without any of them is about correctness.
pub proof fn these_words_tell_the_category(lower: Seq<char>)
    ensures
        ({
            let security = text::has(lower, "inject"@) || text::has(lower, "vulnerab"@) || text::has(lower, "secret"@) || text::has(lower, "credential"@) || text::has(lower, "xss"@) || text::has(lower, "csrf"@) || text::has(lower, "sanitiz"@) || text::has(lower, "escape"@) || text::has(lower, "auth"@) || text::has(lower, "password"@) || text::has(lower, "token"@);
            let performance = text::has(lower, "slow"@) || text::has(lower, "performance"@) || text::has(lower, "n+1"@) || text::has(lower, "allocat"@) || text::has(lower, "loop"@) || text::has(lower, "o(n"@) || text::has(lower, "cache"@) || text::has(lower, "latency"@);
            let design = text::has(lower, "naming"@) || text::has(lower, "extract"@) || text::has(lower, "duplicat"@) || text::has(lower, "readab"@) || text::has(lower, "abstraction"@) || text::has(lower, "coupling"@) || text::has(lower, "responsibility"@);
            &&& security ==> category_of(lower) == "security"@
            &&& !security && performance ==> category_of(lower) == "performance"@
            &&& !security && !performance && design ==> category_of(lower) == "design"@
            &&& !security && !performance && !design ==> category_of(lower) == "correctness"@
        }),
{
    let w = security_keywords();
    lemma_holds_any(lower, w);
    assert(w[0] == "inject"@);
    assert(w[1] == "vulnerab"@);
    assert(w[2] == "secret"@);
    assert(w[3] == "credential"@);
    assert(w[4] == "xss"@);
    assert(w[5] == "csrf"@);
    assert(w[6] == "sanitiz"@);
    assert(w[7] == "escape"@);
    assert(w[8] == "auth"@);
    assert(w[9] == "password"@);
    assert(w[10] == "token"@);
    assert(holds_any(lower, w) <==> (text::has(lower, w[0]) || text::has(lower, w[1]) || text::has(lower, w[2]) || text::has(lower, w[3]) || text::has(lower, w[4]) || text::has(lower, w[5]) || text::has(lower, w[6]) || text::has(lower, w[7]) || text::has(lower, w[8]) || text::has(lower, w[9]) || text::has(lower, w[10])));
    let w = performance_keywords();
    lemma_holds_any(lower, w);
    assert(w[0] == "slow"@);
    assert(w[1] == "performance"@);
    assert(w[2] == "n+1"@);
    assert(w[3] == "allocat"@);
    assert(w[4] == "loop"@);
    assert(w[5] == "o(n"@);
    assert(w[6] == "cache"@);
    assert(w[7] == "latency"@);
    assert(holds_any(lower, w) <==> (text::has(lower, w[0]) || text::has(lower, w[1]) || text::has(lower, w[2]) || text::has(lower, w[3]) || text::has(lower, w[4]) || text::has(lower, w[5]) || text::has(lower, w[6]) || text::has(lower, w[7])));
    let w = design_keywords();
    lemma_holds_any(lower, w);
    assert(w[0] == "naming"@);
    assert(w[1] == "extract"@);
    assert(w[2] == "duplicat"@);
    assert(w[3] == "readab"@);
    assert(w[4] == "abstraction"@);
    assert(w[5] == "coupling"@);
    assert(w[6] == "responsibility"@);
    assert(holds_any(lower, w) <==> (text::has(lower, w[0]) || text::has(lower, w[1]) || text::has(lower, w[2]) || text::has(lower, w[3]) || text::has(lower, w[4]) || text::has(lower, w[5]) || text::has(lower, w[6])));
}

proof fn lemma_holds_any(s: Seq<char>, words: Seq<Seq<char>>)
    ensures
        holds_any(s, words) <==> exists|i: int|
            0 <= i < words.len() && text::has(s, #[trigger] words[i]),
    decreases words.len(),
{
    if words.len() > 0 {
        let rest = words.drop_last();
        lemma_holds_any(s, rest);
        assert(words[words.len() - 1] == words.last());
        if holds_any(s, rest) {
            let i = choose|i: int| 0 <= i < rest.len() && text::has(s, #[trigger] rest[i]);
            assert(words[i] == rest[i]);
        }
        if exists|i: int| 0 <= i < words.len() && text::has(s, #[trigger] words[i]) {
            let i = choose|i: int| 0 <= i < words.len() && text::has(s, #[trigger] words[i]);
            if i < rest.len() {
                assert(rest[i] == words[i]);
            }
        }
    }
}

} // verus!
