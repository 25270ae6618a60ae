//! Whether a proposed edit of a skill does better than the skill, given what a
//! replayed run flags and what humans said of the findings of the past run.

use vstd::prelude::*;

use crate::report::dedupe;
use crate::schema::{FeedbackVerdict, Finding};
use crate::storage::history_store;
use crate::storage::history_store::{
    FeedbackRowView, FindingRowView, KnownVerdict, KnownVerdictView,
};
use crate::text;

verus! {

/// How alike two findings are, in a hundred, to be the same finding.
pub const MATCH_PERCENT: u8 = 50;

/// Of how many false positives in a hundred an edit rids a skill at least.
pub const RESOLVED_PERCENT: u8 = 70;

/// The text by which a finding is compared.
pub open spec fn finding_text(title: Seq<char>, message: Seq<char>) -> Seq<char> {
    title + " "@ + message
}

/// A finding is the one that is known.
pub open spec fn matches_known(finding: Finding, known: KnownVerdictView) -> bool {
    dedupe::similarity_of(
        finding_text(finding.title@, finding.message@),
        finding_text(known.title, known.message),
    ).reaches(MATCH_PERCENT as nat)
}

/// One of the findings is the one that is known.
pub open spec fn still_there(known: KnownVerdictView, findings: Seq<Finding>) -> bool {
    exists|i: int| 0 <= i < findings.len() && matches_known(#[trigger] findings[i], known)
}

fn still_flagged(known: &KnownVerdict, run_findings: &[Finding]) -> (r: bool)
    ensures
        r == still_there(known@, run_findings@),
{
    let wanted: String = text::concat3(known.title.as_str(), " ", known.message.as_str());
    let mut i: usize = 0;
    while i < run_findings.len()
        invariant
            0 <= i <= run_findings@.len(),
            wanted@ == finding_text(known.title@, known.message@),
            forall|j: int| 0 <= j < i ==> !matches_known(#[trigger] run_findings@[j], known@),
        decreases run_findings.len() - i,
    {
        let ours: String = text::concat3(
            run_findings[i].title.as_str(),
            " ",
            run_findings[i].message.as_str(),
        );
        if dedupe::title_similarity(ours.as_str(), wanted.as_str()).at_least(MATCH_PERCENT) {
            proof {
                assert(matches_known(run_findings@[i as int], known@));
            }
            return true;
        }
        i += 1;
    }
    false
}

/// What a replayed run shows of a proposed edit.
#[derive(Debug, Clone, PartialEq, Eq)]
pub struct ReplayComparison {
    pub fp_total: usize,
    pub fp_resolved: usize,
    pub tp_total: usize,
    /// The titles of the true positives that the edit loses.
    pub tp_lost: Vec<String>,
}

impl Default for ReplayComparison {
    /// Nothing is known.
    fn default() -> (c: Self)
        ensures
            c.fp_total == 0,
            c.fp_resolved == 0,
            c.tp_total == 0,
            c.tp_lost@ == Seq::<String>::empty(),
    {
        ReplayComparison { fp_total: 0, fp_resolved: 0, tp_total: 0, tp_lost: Vec::new() }
    }
}

impl ReplayComparison {
    /// The edit is good enough: it loses no true positive, and resolves enough
    /// of the false positives, of which there are some.
    pub open spec fn good_enough(self) -> bool {
        &&& self.tp_lost@.len() == 0
        &&& self.fp_total > 0
        &&& self.fp_resolved * 100 >= RESOLVED_PERCENT * self.fp_total
    }

    /// Whether the edit is good enough.
    pub fn passes_gate(&self) -> (r: bool)
        ensures
            r == self.good_enough(),
    {
        if self.tp_lost.len() > 0 {
            return false;
        }
        if self.fp_total == 0 {
            return false;
        }
        let percent: u128 = RESOLVED_PERCENT as u128;
        assert(percent * self.fp_total == 70 * self.fp_total);
        self.fp_resolved as u128 * 100 >= percent * self.fp_total as u128
    }
}

/// A word for a false positive: the short one, or the one that is recorded.
pub open spec fn says_false(verdict: Seq<char>) -> bool {
    verdict == "fp"@ || verdict == FeedbackVerdict::FalsePositive.label()
}

/// A word for a true positive: the short one, or the one that is recorded.
pub open spec fn says_true(verdict: Seq<char>) -> bool {
    verdict == "tp"@ || verdict == FeedbackVerdict::TruePositive.label()
}

/// How many of the known findings are false positives.
pub open spec fn false_in(known: Seq<KnownVerdictView>) -> nat
    decreases known.len(),
{
    if known.len() == 0 {
        0
    } else {
        false_in(known.drop_last()) + if says_false(known.last().verdict) {
            1nat
        } else {
            0
        }
    }
}

/// How many of the known findings are true positives.
pub open spec fn true_in(known: Seq<KnownVerdictView>) -> nat
    decreases known.len(),
{
    if known.len() == 0 {
        0
    } else {
        true_in(known.drop_last()) + if says_true(known.last().verdict) {
            1nat
        } else {
            0
        }
    }
}

proof fn lemma_words_differ(verdict: Seq<char>)
    ensures
        !(says_false(verdict) && says_true(verdict)),
{
    reveal_strlit("fp");
    reveal_strlit("tp");
    reveal_strlit("false_positive");
    reveal_strlit("true_positive");
    assert("fp"@[0] == 'f' && "false_positive"@[0] == 'f');
    assert("tp"@[0] == 't' && "true_positive"@[0] == 't');
}

/// How many of the known false positives are no longer flagged.
pub open spec fn resolved(known: Seq<KnownVerdictView>, findings: Seq<Finding>) -> nat
    decreases known.len(),
{
    if known.len() == 0 {
        0
    } else {
        resolved(known.drop_last(), findings) + if says_false(known.last().verdict)
            && !still_there(known.last(), findings) {
            1nat
        } else {
            0
        }
    }
}

/// The titles of the known true positives that are no longer flagged.
pub open spec fn lost(known: Seq<KnownVerdictView>, findings: Seq<Finding>) -> Seq<Seq<char>>
    decreases known.len(),
{
    if known.len() == 0 {
        Seq::empty()
    } else if says_true(known.last().verdict) && !still_there(known.last(), findings) {
        lost(known.drop_last(), findings).push(known.last().title)
    } else {
        lost(known.drop_last(), findings)
    }
}

fn is_false(verdict: &str) -> (r: bool)
    ensures
        r == says_false(verdict@),
{
    text::same(verdict, "fp") || text::same(verdict, FeedbackVerdict::FalsePositive.as_str())
}

fn is_true(verdict: &str) -> (r: bool)
    ensures
        r == says_true(verdict@),
{
    text::same(verdict, "tp") || text::same(verdict, FeedbackVerdict::TruePositive.as_str())
}

/// Compares what a replayed run flags with what is known of the past run.
pub fn compare_replay(known_verdicts: &[KnownVerdict], candidate_findings: &[Finding]) -> (c:
    ReplayComparison)
    ensures
        c.fp_total == false_in(text::views(known_verdicts@)),
        c.fp_resolved == resolved(text::views(known_verdicts@), candidate_findings@),
        c.tp_total == true_in(text::views(known_verdicts@)),
        text::views(c.tp_lost@) == lost(text::views(known_verdicts@), candidate_findings@),
{
    let ghost all = text::views(known_verdicts@);
    let mut fp_total: usize = 0;
    let mut fp_resolved: usize = 0;
    let mut tp_total: usize = 0;
    let mut tp_lost: Vec<String> = Vec::new();
    proof {
        assert(text::views(tp_lost@) =~= Seq::empty());
    }
    let mut i: usize = 0;
    while i < known_verdicts.len()
        invariant
            0 <= i <= known_verdicts@.len(),
            all == text::views(known_verdicts@),
            fp_total == false_in(all.take(i as int)),
            fp_resolved == resolved(all.take(i as int), candidate_findings@),
            tp_total == true_in(all.take(i as int)),
            text::views(tp_lost@) == lost(all.take(i as int), candidate_findings@),
            fp_total <= i,
            fp_resolved <= i,
            tp_total <= i,
        decreases known_verdicts.len() - i,
    {
        proof {
            assert(all.take(i + 1).drop_last() =~= all.take(i as int));
            assert(all.take(i + 1).last() == known_verdicts@[i as int]@);
            lemma_words_differ(known_verdicts@[i as int].verdict@);
        }
        let known: &KnownVerdict = &known_verdicts[i];
        if is_false(known.verdict.as_str()) {
            fp_total += 1;
            if !still_flagged(known, candidate_findings) {
                fp_resolved += 1;
            }
        } else if is_true(known.verdict.as_str()) {
            tp_total += 1;
            if !still_flagged(known, candidate_findings) {
                let title: String = known.title.clone();
                proof {
                    text::lemma_views_push(tp_lost@, title);
                }
                tp_lost.push(title);
            }
        }
        i += 1;
    }
    proof {
        assert(all.take(all.len() as int) =~= all);
    }
    ReplayComparison { fp_total, fp_resolved, tp_total, tp_lost }
}

proof fn lemma_resolved_bound(known: Seq<KnownVerdictView>, findings: Seq<Finding>)
    ensures
        resolved(known, findings) <= false_in(known),
        lost(known, findings).len() <= true_in(known),
    decreases known.len(),
{
    if known.len() > 0 {
        lemma_resolved_bound(known.drop_last(), findings);
    }
}

/// An edit that loses one true positive is never good enough, however many
/// false positives it resolves.
pub proof fn a_lost_finding_fails_the_gate(
    known: Seq<KnownVerdictView>,
    findings: Seq<Finding>,
    c: ReplayComparison,
)
    requires
        lost(known, findings).len() > 0,
        text::views(c.tp_lost@) == lost(known, findings),
    ensures
        !c.good_enough(),
{
    assert(text::views(c.tp_lost@).len() == c.tp_lost@.len());
}

/// No more false positives are resolved than are known, and no more true
/// positives lost.
pub proof fn counts_stay_within_what_is_known(known: Seq<KnownVerdictView>, findings: Seq<Finding>)
    ensures
        resolved(known, findings) <= false_in(known),
        lost(known, findings).len() <= true_in(known),
{
    lemma_resolved_bound(known, findings);
}

/// A recorded verdict says that a finding is right, or that it is wrong.
pub open spec fn says(right: bool, verdict: Seq<char>) -> bool {
    if right {
        says_true(verdict)
    } else {
        says_false(verdict)
    }
}

/// How often it was recorded of a fingerprint that it is right, or wrong.
pub open spec fn recorded_on(
    feedback: Seq<FeedbackRowView>,
    fingerprint: Seq<char>,
    right: bool,
) -> nat
    decreases feedback.len(),
{
    if feedback.len() == 0 {
        0
    } else {
        recorded_on(feedback.drop_last(), fingerprint, right) + if feedback.last().fingerprint
            == fingerprint && says(right, feedback.last().verdict) {
            1nat
        } else {
            0
        }
    }
}

/// How often it was recorded of the findings of a run that they are right, or
/// wrong.
pub open spec fn recorded_in(
    findings: Seq<FindingRowView>,
    feedback: Seq<FeedbackRowView>,
    run_id: Seq<char>,
    right: bool,
) -> nat
    decreases findings.len(),
{
    if findings.len() == 0 {
        0
    } else {
        recorded_in(findings.drop_last(), feedback, run_id, right) + if findings.last().run_id
            == run_id {
            recorded_on(feedback, findings.last().fingerprint, right)
        } else {
            0
        }
    }
}

proof fn lemma_counts_add(a: Seq<KnownVerdictView>, b: Seq<KnownVerdictView>)
    ensures
        false_in(a + b) == false_in(a) + false_in(b),
        true_in(a + b) == true_in(a) + true_in(b),
    decreases b.len(),
{
    if b.len() > 0 {
        lemma_counts_add(a, b.drop_last());
        assert((a + b).drop_last() =~= a + b.drop_last());
        assert((a + b).last() == b.last());
    } else {
        assert(a + b =~= a);
    }
}

proof fn lemma_counts_on(finding: FindingRowView, feedback: Seq<FeedbackRowView>)
    ensures
        false_in(history_store::verdicts_on(finding, feedback)) == recorded_on(
            feedback,
            finding.fingerprint,
            false,
        ),
        true_in(history_store::verdicts_on(finding, feedback)) == recorded_on(
            feedback,
            finding.fingerprint,
            true,
        ),
    decreases feedback.len(),
{
    if feedback.len() > 0 {
        let rest = feedback.drop_last();
        lemma_counts_on(finding, rest);
        let last = feedback[feedback.len() - 1];
        let before = history_store::verdicts_on(finding, rest);
        if last.fingerprint == finding.fingerprint {
            let after = history_store::verdicts_on(finding, feedback);
            assert(after.drop_last() =~= before);
        }
    }
}

/// A replay counts what was recorded of the findings of the run: as many false
/// positives, and as many true positives.
pub proof fn recorded_verdicts_count(
    findings: Seq<FindingRowView>,
    feedback: Seq<FeedbackRowView>,
    run_id: Seq<char>,
)
    ensures
        ({
            let known = history_store::verdicts_in(findings, feedback, run_id);
            &&& false_in(known) == recorded_in(findings, feedback, run_id, false)
            &&& true_in(known) == recorded_in(findings, feedback, run_id, true)
        }),
    decreases findings.len(),
{
    if findings.len() > 0 {
        recorded_verdicts_count(findings.drop_last(), feedback, run_id);
        if findings.last().run_id == run_id {
            lemma_counts_on(findings.last(), feedback);
            lemma_counts_add(
                history_store::verdicts_in(findings.drop_last(), feedback, run_id),
                history_store::verdicts_on(findings.last(), feedback),
            );
        }
    }
}

/// A finding is the known one where at least half of the windows of their titles
/// and messages are shared.
pub proof fn known_findings_are_met_by_half(finding: Finding, known: KnownVerdictView)
    ensures
        ({
            let s = dedupe::similarity_of(
                finding.title@ + " "@ + finding.message@,
                known.title + " "@ + known.message,
            );
            matches_known(finding, known) <==> s.total > 0 && 2 * s.shared >= s.total
        }),
{
}

/// What a replay must show: no right finding may be lost, there must be a wrong one
/// to resolve, and seven in ten of those must be gone.
pub proof fn replays_must_show_all_of_these(c: ReplayComparison)
    ensures
        c.good_enough() <==> c.tp_lost@.len() == 0 && c.fp_total > 0 && 10 * c.fp_resolved >= 7
            * c.fp_total,
{
}

/// What a replay counts: the verdicts of either word, those wrong findings that
/// are no longer there, and the titles of those right ones that are not.
pub proof fn replays_count_these(known: Seq<KnownVerdictView>, findings: Seq<Finding>)
    ensures
        ({
            let wrong = |k: KnownVerdictView| k.verdict == "fp"@ || k.verdict == "false_positive"@;
            let right = |k: KnownVerdictView| k.verdict == "tp"@ || k.verdict == "true_positive"@;
            let there = |k: KnownVerdictView|
                exists|i: int| 0 <= i < findings.len() && matches_known(#[trigger] findings[i], k);
            &&& false_in(known) == known.filter(wrong).len()
            &&& true_in(known) == known.filter(right).len()
            &&& resolved(known, findings) == known.filter(
                |k: KnownVerdictView| wrong(k) && !there(k),
            ).len()
            &&& lost(known, findings) == known.filter(
                |k: KnownVerdictView| right(k) && !there(k),
            ).map_values(|k: KnownVerdictView| k.title)
        }),
    decreases known.len(),
{
    reveal(Seq::filter);
    let right = |k: KnownVerdictView| k.verdict == "tp"@ || k.verdict == "true_positive"@;
    let there = |k: KnownVerdictView|
        exists|i: int| 0 <= i < findings.len() && matches_known(#[trigger] findings[i], k);
    let gone = |k: KnownVerdictView| right(k) && !there(k);
    let title = |k: KnownVerdictView| k.title;
    if known.len() == 0 {
        assert(lost(known, findings) =~= known.filter(gone).map_values(title));
    } else {
        let rest = known.drop_last();
        replays_count_these(rest, findings);
        if gone(known.last()) {
            assert(known.filter(gone) =~= rest.filter(gone).push(known.last()));
            assert(known.filter(gone).map_values(title) =~= rest.filter(gone).map_values(
                title,
            ).push(known.last().title));
        }
    }
}

} // verus!
