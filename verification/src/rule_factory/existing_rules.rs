//! Which shipped rule a candidate seed duplicates, if any.

use vstd::prelude::*;

use crate::clusters;
use crate::report::dedupe;
use crate::report::dedupe::Similarity;
use crate::rule_factory::mine::{CandidateSeed, SeedView};
use crate::text;

verus! {

/// What is compared of a shipped rule.
#[derive(Debug, Clone, PartialEq, Eq)]
pub struct ExistingRuleSummary {
    pub id: String,
    pub category: String,
    pub message: String,
}

/// What an `ExistingRuleSummary` says.
pub struct RuleView {
    pub id: Seq<char>,
    pub category: Seq<char>,
    pub message: Seq<char>,
}

impl View for ExistingRuleSummary {
    type V = RuleView;

    open spec fn view(&self) -> RuleView {
        RuleView { id: self.id@, category: self.category@, message: self.message@ }
    }
}

/// A shipped rule that a seed duplicates, and how alike the two are.
#[derive(Debug, Clone, PartialEq, Eq)]
pub struct ExistingRuleMatch {
    pub rule_id: String,
    pub similarity: Similarity,
}

/// What an `ExistingRuleMatch` says.
pub struct MatchView {
    pub rule_id: Seq<char>,
    pub similarity: Similarity,
}

impl View for ExistingRuleMatch {
    type V = MatchView;

    open spec fn view(&self) -> MatchView {
        MatchView { rule_id: self.rule_id@, similarity: self.similarity }
    }
}

/// The most alike of the rules of a category that are alike enough to a text; of
/// equally alike ones the last.
pub open spec fn best_match(
    rules: Seq<RuleView>,
    category: Seq<char>,
    seed_text: Seq<char>,
) -> Option<MatchView>
    decreases rules.len(),
{
    if rules.len() == 0 {
        None
    } else {
        let before = best_match(rules.drop_last(), category, seed_text);
        let rule = rules.last();
        let similarity = dedupe::similarity_of(seed_text, rule.message);
        if rule.category == category && similarity.reaches(clusters::SIMILARITY_PERCENT as nat) && (
        before is None || !similarity.below(before->Some_0.similarity)) {
            Some(MatchView { rule_id: rule.id, similarity })
        } else {
            before
        }
    }
}

/// The shipped rule that a seed duplicates: the seed's first snippet is compared
/// with the messages of the rules of its category.
pub open spec fn duplicate_of(seed: SeedView, rules: Seq<RuleView>) -> Option<MatchView> {
    if seed.representative_snippets.len() == 0 {
        None
    } else {
        let first = seed.representative_snippets[0];
        best_match(rules, seed.category, first.title + " "@ + first.message)
    }
}

/// The shipped rule that a seed duplicates, if any.
pub fn find_similar_existing_rule(seed: &CandidateSeed, existing: &[ExistingRuleSummary]) -> (found:
    Option<ExistingRuleMatch>)
    ensures
        match found {
            Some(m) => duplicate_of(seed@, text::views(existing@)) == Some(m@),
            None => duplicate_of(seed@, text::views(existing@)) is None,
        },
{
    proof {
        assert(seed@.representative_snippets.len() == seed.representative_snippets@.len());
    }
    if seed.representative_snippets.len() == 0 {
        return None;
    }
    let ghost rules = text::views(existing@);
    let seed_text: String = text::concat3(
        seed.representative_snippets[0].title.as_str(),
        " ",
        seed.representative_snippets[0].message.as_str(),
    );
    let mut best: Option<ExistingRuleMatch> = None;
    let mut i: usize = 0;
    while i < existing.len()
        invariant
            0 <= i <= existing@.len(),
            rules == text::views(existing@),
            match best {
                Some(m) => best_match(rules.take(i as int), seed.category@, seed_text@) == Some(m@)
                    && m.similarity.sound(),
                None => best_match(rules.take(i as int), seed.category@, seed_text@) is None,
            },
        decreases existing.len() - i,
    {
        proof {
            assert(rules.take(i + 1).drop_last() =~= rules.take(i as int));
            assert(rules.take(i + 1).last() == existing@[i as int]@);
        }
        if text::same(existing[i].category.as_str(), seed.category.as_str()) {
            let similarity: Similarity = dedupe::title_similarity(
                seed_text.as_str(),
                existing[i].message.as_str(),
            );
            if similarity.at_least(clusters::SIMILARITY_PERCENT) {
                let better: bool = match &best {
                    Some(m) => !similarity.less_than(m.similarity),
                    None => true,
                };
                if better {
                    best = Some(
                        ExistingRuleMatch { rule_id: existing[i].id.clone(), similarity },
                    );
                }
            }
        }
        i += 1;
    }
    proof {
        assert(rules.take(rules.len() as int) =~= rules);
    }
    best
}

/// A seed only ever duplicates a rule of its own category that is alike enough.
pub proof fn duplicates_share_the_category(
    rules: Seq<RuleView>,
    category: Seq<char>,
    seed_text: Seq<char>,
)
    ensures
        best_match(rules, category, seed_text) matches Some(m) ==> exists|i: int|
            0 <= i < rules.len() && (#[trigger] rules[i]).category == category && rules[i].id
                == m.rule_id && m.similarity == dedupe::similarity_of(seed_text, rules[i].message)
                && m.similarity.reaches(clusters::SIMILARITY_PERCENT as nat),
    decreases rules.len(),
{
    if rules.len() > 0 {
        let head = rules.drop_last();
        duplicates_share_the_category(head, category, seed_text);
        let before = best_match(head, category, seed_text);
        if best_match(rules, category, seed_text) == before && before is Some {
            let m = before->Some_0;
            let i = choose|i: int|
                0 <= i < head.len() && (#[trigger] head[i]).category == category && head[i].id
                    == m.rule_id && m.similarity == dedupe::similarity_of(
                    seed_text,
                    head[i].message,
                ) && m.similarity.reaches(clusters::SIMILARITY_PERCENT as nat);
            assert(rules[i] == head[i]);
        } else if best_match(rules, category, seed_text) is Some {
            assert(rules[rules.len() - 1].category == category);
        }
    }
}

proof fn lemma_most_alike(best: Similarity, before: Similarity, other: Similarity)
    requires
        before.total > 0,
        !best.below(before),
        !before.below(other),
    ensures
        !best.below(other),
{
    let (a, b) = (best.shared as int, best.total as int);
    let (c, d) = (before.shared as int, before.total as int);
    let (e, f) = (other.shared as int, other.total as int);
    assert((a * f) * d >= (e * b) * d) by (nonlinear_arith)
        requires
            a * d >= c * b,
            c * f >= e * d,
            b >= 0,
            f >= 0,
    ;
    assert(a * f >= e * b) by (nonlinear_arith)
        requires
            (a * f) * d >= (e * b) * d,
            d > 0,
    ;
}

proof fn lemma_enough_is_more(best: Similarity, other: Similarity)
    requires
        best.reaches(clusters::SIMILARITY_PERCENT as nat),
        !other.reaches(clusters::SIMILARITY_PERCENT as nat),
        other.total == 0 ==> other.shared == 0,
    ensures
        !best.below(other),
{
    let p = clusters::SIMILARITY_PERCENT as int;
    let (a, b) = (best.shared as int, best.total as int);
    let (e, f) = (other.shared as int, other.total as int);
    if f > 0 {
        assert(a * f * 100 >= e * b * 100) by (nonlinear_arith)
            requires
                a * 100 >= p * b,
                e * 100 < p * f,
                b > 0,
                f > 0,
        ;
    }
}

/// No rule of the category is more alike to a seed than the one that it
/// duplicates, and without one none is alike enough.
pub proof fn no_rule_is_more_alike(
    rules: Seq<RuleView>,
    category: Seq<char>,
    seed_text: Seq<char>,
    i: int,
)
    requires
        0 <= i < rules.len(),
        rules[i].category == category,
        seed_text.len() <= u64::MAX,
        forall|j: int| 0 <= j < rules.len() ==> (#[trigger] rules[j]).message.len() <= u64::MAX,
    ensures
        ({
            let other = dedupe::similarity_of(seed_text, rules[i].message);
            match best_match(rules, category, seed_text) {
                Some(m) => !m.similarity.below(other),
                None => !other.reaches(clusters::SIMILARITY_PERCENT as nat),
            }
        }),
    decreases rules.len(),
{
    let head = rules.drop_last();
    let before = best_match(head, category, seed_text);
    let last = dedupe::similarity_of(seed_text, rules.last().message);
    let other = dedupe::similarity_of(seed_text, rules[i].message);
    duplicates_share_the_category(head, category, seed_text);
    duplicates_share_the_category(rules, category, seed_text);
    dedupe::lemma_similarity_is_sound(seed_text, rules[i].message);
    assert forall|j: int| 0 <= j < head.len() implies (#[trigger] head[j]).message.len()
        <= u64::MAX by {
        assert(head[j] == rules[j]);
    }
    if i < head.len() {
        assert(head[i] == rules[i]);
        no_rule_is_more_alike(head, category, seed_text, i);
        if best_match(rules, category, seed_text) != before {
            match before {
                Some(b) => lemma_most_alike(last, b.similarity, other),
                None => lemma_enough_is_more(last, other),
            }
        }
    } else if best_match(rules, category, seed_text) == before {
        match before {
            Some(b) => {
                if !last.reaches(clusters::SIMILARITY_PERCENT as nat) {
                    lemma_enough_is_more(b.similarity, last);
                }
            },
            None => {},
        }
    }
}

/// A rule of the seed's category whose message is alike to the seed's first title
/// and message, by 55 in a hundred, is found; of rules that are as alike, the last.
pub proof fn the_last_of_the_most_alike_is_found(
    seed: SeedView,
    rules: Seq<RuleView>,
    rule: RuleView,
)
    ensures
        seed.representative_snippets.len() == 0 ==> duplicate_of(seed, rules) is None,
        seed.representative_snippets.len() > 0 ==> {
            let first = seed.representative_snippets[0];
            let s = dedupe::similarity_of(first.title + " "@ + first.message, rule.message);
            let fits = rule.category == seed.category && s.total > 0 && 100 * s.shared >= 55
                * s.total;
            let (was, is) = (duplicate_of(seed, rules), duplicate_of(seed, rules.push(rule)));
            &&& !fits ==> is == was
            &&& fits && was is None ==> (is matches Some(m) && m.rule_id == rule.id
                && m.similarity == s)
            &&& fits ==> (was matches Some(m) ==> {
                &&& s.shared * m.similarity.total >= m.similarity.shared * s.total ==> (is
                    matches Some(n) && n.rule_id == rule.id && n.similarity == s)
                &&& s.shared * m.similarity.total < m.similarity.shared * s.total ==> is == was
            })
        },
        duplicate_of(seed, Seq::empty()) is None,
{
    assert(rules.push(rule).drop_last() =~= rules);
}

} // verus!
