//! Shadow mode: when a rule on trial is promoted or demoted, and whether a
//! firing of it agrees with what the agents of a run found.

use vstd::prelude::*;

use crate::text;

verus! {

/// How often a rule has fired at least before it is promoted.
pub const MIN_FIRINGS: u32 = 20;

/// In how many runs a rule has fired at least before it is promoted.
pub const MIN_DISTINCT_RUNS: usize = 5;

/// Of how many firings in a hundred agents agree at least before a rule is
/// promoted.
pub const MIN_AGREEMENT_PERCENT: u32 = 90;

/// How many days a rule is on trial at least before it is promoted.
pub const MIN_DAYS_IN_SHADOW: i64 = 7;

/// How many false-positive reports demote a rule.
pub const DEMOTE_FP_THRESHOLD: u32 = 3;

/// Within how many lines of each other two findings are at the same spot.
pub const LINE_PROXIMITY: u32 = 3;

/// Whether a firing agrees with the agents of a run.
#[derive(Debug, Clone, Copy, PartialEq, Eq, Structural)]
pub enum Agreement {
    Agreed,
    Disagreed,
    NoSignal,
}

impl Agreement {
    /// The agreement as it is recorded.
    pub open spec fn label(self) -> Seq<char> {
        match self {
            Agreement::Agreed => "agreed"@,
            Agreement::Disagreed => "disagreed"@,
            Agreement::NoSignal => "no_signal"@,
        }
    }

    /// The agreement as it is recorded.
    pub fn as_str(&self) -> (s: &'static str)
        ensures
            s@ == self.label(),
    {
        match self {
            Agreement::Agreed => "agreed",
            Agreement::Disagreed => "disagreed",
            Agreement::NoSignal => "no_signal",
        }
    }
}

/// Where an agent found something, and of what category.
pub struct AgentFindingRef<'a> {
    pub category: &'a str,
    pub path: &'a str,
    pub line: u32,
}

/// An agent found something of the category.
pub open spec fn category_ran(category: Seq<char>, findings: Seq<AgentFindingRef>) -> bool {
    exists|i: int| 0 <= i < findings.len() && (#[trigger] findings[i]).category@ == category
}

/// Two lines are at the same spot.
pub open spec fn near(a: u32, b: u32) -> bool {
    -(LINE_PROXIMITY as int) <= a - b <= LINE_PROXIMITY
}

/// A finding is of the category and at the spot.
pub open spec fn flags_spot(
    category: Seq<char>,
    path: Seq<char>,
    line: u32,
    finding: AgentFindingRef,
) -> bool {
    finding.category@ == category && finding.path@ == path && near(finding.line, line)
}

/// An agent found something of the category at the spot.
pub open spec fn spot_flagged(
    category: Seq<char>,
    path: Seq<char>,
    line: u32,
    findings: Seq<AgentFindingRef>,
) -> bool {
    exists|i: int| 0 <= i < findings.len() && flags_spot(category, path, line, #[trigger] findings[i])
}

/// Whether a firing agrees with what the agents of a run found: it does where
/// one of them found something of the same category at the same spot; it does
/// not where some found something of the category, but not there; and there is
/// no signal where none found anything of the category.
pub open spec fn agreement_of(
    category: Seq<char>,
    path: Seq<char>,
    line: u32,
    findings: Seq<AgentFindingRef>,
) -> Agreement {
    if !category_ran(category, findings) {
        Agreement::NoSignal
    } else if spot_flagged(category, path, line, findings) {
        Agreement::Agreed
    } else {
        Agreement::Disagreed
    }
}

/// Whether a firing agrees with what the agents of a run found.
pub fn classify_agreement(
    category: &str,
    path: &str,
    line: u32,
    agent_findings_this_run: &[AgentFindingRef],
) -> (agreement: Agreement)
    ensures
        agreement == agreement_of(category@, path@, line, agent_findings_this_run@),
{
    let mut ran: bool = false;
    let mut i: usize = 0;
    while i < agent_findings_this_run.len()
        invariant
            0 <= i <= agent_findings_this_run@.len(),
            ran ==> category_ran(category@, agent_findings_this_run@),
            !ran ==> forall|j: int|
                0 <= j < i ==> (#[trigger] agent_findings_this_run@[j]).category@ != category@,
            forall|j: int|
                0 <= j < i ==> !flags_spot(
                    category@,
                    path@,
                    line,
                    #[trigger] agent_findings_this_run@[j],
                ),
        decreases agent_findings_this_run.len() - i,
    {
        let finding: &AgentFindingRef = &agent_findings_this_run[i];
        if text::same(finding.category, category) {
            proof {
                assert(agent_findings_this_run@[i as int].category@ == category@);
            }
            ran = true;
            let distance: u32 = if finding.line >= line {
                finding.line - line
            } else {
                line - finding.line
            };
            if text::same(finding.path, path) && distance <= LINE_PROXIMITY {
                proof {
                    assert(flags_spot(
                        category@,
                        path@,
                        line,
                        agent_findings_this_run@[i as int],
                    ));
                }
                return Agreement::Agreed;
            }
        }
        i += 1;
    }
    if ran {
        Agreement::Disagreed
    } else {
        Agreement::NoSignal
    }
}

/// What is known of a rule on trial.
#[derive(Debug, Clone, Copy)]
pub struct PromotionInputs {
    pub firings: u32,
    pub distinct_runs: usize,
    pub agent_agreed: u32,
    pub agent_disagreed: u32,
    pub user_fp_count: u32,
    pub days_since_valid_from: i64,
}

/// A rule is promoted: it fired often enough and in enough runs, nobody
/// reported a false positive, it has been on trial long enough, and of the
/// firings on which agents had a say, enough were agreed with.
pub open spec fn promoted(inputs: PromotionInputs) -> bool {
    &&& inputs.firings >= MIN_FIRINGS
    &&& inputs.distinct_runs >= MIN_DISTINCT_RUNS
    &&& inputs.user_fp_count == 0
    &&& inputs.days_since_valid_from >= MIN_DAYS_IN_SHADOW
    &&& inputs.agent_agreed + inputs.agent_disagreed > 0
    &&& inputs.agent_agreed * 100 >= MIN_AGREEMENT_PERCENT * (inputs.agent_agreed
        + inputs.agent_disagreed)
}

/// Whether a rule on trial is promoted.
pub fn should_promote(inputs: &PromotionInputs) -> (r: bool)
    ensures
        r == promoted(*inputs),
{
    if inputs.firings < MIN_FIRINGS {
        return false;
    }
    if inputs.distinct_runs < MIN_DISTINCT_RUNS {
        return false;
    }
    if inputs.user_fp_count > 0 {
        return false;
    }
    if inputs.days_since_valid_from < MIN_DAYS_IN_SHADOW {
        return false;
    }
    let total: u64 = inputs.agent_agreed as u64 + inputs.agent_disagreed as u64;
    if total == 0 {
        return false;
    }
    let percent: u64 = MIN_AGREEMENT_PERCENT as u64;
    assert(percent * total == 90 * total);
    inputs.agent_agreed as u64 * 100 >= percent * total
}

/// Whether a rule is demoted after so many false-positive reports.
pub fn should_demote(user_fp_count: u32) -> (r: bool)
    ensures
        r == (user_fp_count >= DEMOTE_FP_THRESHOLD),
{
    user_fp_count >= DEMOTE_FP_THRESHOLD
}

/// One false-positive report keeps a rule from being promoted, whatever else is
/// known of it.
pub proof fn a_report_blocks_promotion(inputs: PromotionInputs)
    requires
        inputs.user_fp_count > 0,
    ensures
        !promoted(inputs),
{
}

/// However often a rule fires, it is not promoted before an agent had a say.
pub proof fn firing_alone_never_promotes(inputs: PromotionInputs)
    requires
        inputs.agent_agreed == 0,
        inputs.agent_disagreed == 0,
    ensures
        !promoted(inputs),
{
}

/// A rule that is demoted could not be promoted in the same breath.
pub proof fn demotion_excludes_promotion(inputs: PromotionInputs)
    requires
        inputs.user_fp_count >= DEMOTE_FP_THRESHOLD,
    ensures
        !promoted(inputs),
{
}

/// More agreement never costs a rule its promotion.
pub proof fn agreement_only_helps(fewer: PromotionInputs, more: PromotionInputs)
    requires
        promoted(fewer),
        more.agent_agreed >= fewer.agent_agreed,
        more.agent_disagreed == fewer.agent_disagreed,
        more.firings >= fewer.firings,
        more.distinct_runs >= fewer.distinct_runs,
        more.user_fp_count == fewer.user_fp_count,
        more.days_since_valid_from >= fewer.days_since_valid_from,
    ensures
        promoted(more),
{
}

/// A firing is agreed with exactly if an agent found something of its category in
/// its file, three lines away at most, above or below. Without anything of the
/// category there is no signal; in between it is disagreed with.
pub proof fn agreement_is_a_matter_of_distance(
    category: Seq<char>,
    path: Seq<char>,
    line: u32,
    findings: Seq<AgentFindingRef>,
)
    ensures
        agreement_of(category, path, line, findings) == Agreement::Agreed <==> exists|i: int|
            0 <= i < findings.len() && (#[trigger] findings[i]).category@ == category
                && findings[i].path@ == path && findings[i].line - line <= 3 && line
                - findings[i].line <= 3,
        agreement_of(category, path, line, findings) == Agreement::NoSignal <==> forall|i: int|
            0 <= i < findings.len() ==> (#[trigger] findings[i]).category@ != category,
{
    if spot_flagged(category, path, line, findings) {
        let i = choose|i: int|
            0 <= i < findings.len() && flags_spot(category, path, line, #[trigger] findings[i]);
        assert(findings[i].category@ == category);
    }
    if exists|i: int|
        0 <= i < findings.len() && (#[trigger] findings[i]).category@ == category
            && findings[i].path@ == path && findings[i].line - line <= 3 && line - findings[i].line
            <= 3 {
        let i = choose|i: int|
            0 <= i < findings.len() && (#[trigger] findings[i]).category@ == category
                && findings[i].path@ == path && findings[i].line - line <= 3 && line
                - findings[i].line <= 3;
        assert(flags_spot(category, path, line, findings[i]));
    }
}

/// Closeness is mutual: a firing and a finding of one category in one file agree
/// alike if they change places.
pub proof fn agreement_is_symmetric(
    category: Seq<char>,
    path: Seq<char>,
    firing: u32,
    there: AgentFindingRef,
    swapped: AgentFindingRef,
)
    requires
        swapped.category@ == there.category@,
        swapped.path@ == there.path@,
        swapped.line == firing,
    ensures
        agreement_of(category, path, firing, seq![there]) == agreement_of(
            category,
            path,
            there.line,
            seq![swapped],
        ),
{
    agreement_is_a_matter_of_distance(category, path, firing, seq![there]);
    agreement_is_a_matter_of_distance(category, path, there.line, seq![swapped]);
    assert(seq![there][0] == there);
    assert(seq![swapped][0] == swapped);
}

/// Findings elsewhere or of another category never take agreement away.
pub proof fn agreement_survives_more_findings(
    category: Seq<char>,
    path: Seq<char>,
    line: u32,
    some: Seq<AgentFindingRef>,
    more: Seq<AgentFindingRef>,
)
    requires
        agreement_of(category, path, line, some) == Agreement::Agreed,
    ensures
        agreement_of(category, path, line, some + more) == Agreement::Agreed,
        agreement_of(category, path, line, more + some) == Agreement::Agreed,
{
    let i = choose|i: int|
        0 <= i < some.len() && flags_spot(category, path, line, #[trigger] some[i]);
    assert((some + more)[i] == some[i]);
    assert((more + some)[i + more.len()] == some[i]);
    assert(flags_spot(category, path, line, (some + more)[i]));
    assert(flags_spot(category, path, line, (more + some)[i + more.len()]));
    assert((some + more)[i].category@ == category);
    assert((more + some)[i + more.len()].category@ == category);
}

/// A rule is promoted exactly if it fired twenty times in five runs at least, was
/// on trial for a week, nobody reported a false positive, and agents agreed with
/// nine in ten of the firings that they had a say on.
pub proof fn promotion_takes_all_of_these(inputs: PromotionInputs)
    ensures
        promoted(inputs) <==> inputs.firings >= 20 && inputs.distinct_runs >= 5
            && inputs.days_since_valid_from >= 7 && inputs.user_fp_count == 0 && (
        inputs.agent_agreed > 0 || inputs.agent_disagreed > 0) && inputs.agent_agreed >= 9
            * inputs.agent_disagreed,
        inputs.user_fp_count >= DEMOTE_FP_THRESHOLD <==> inputs.user_fp_count >= 3,
{
}

/// How agreement is recorded.
pub proof fn agreement_is_recorded_in_words()
    ensures
        Agreement::Agreed.label() == "agreed"@,
        Agreement::Disagreed.label() == "disagreed"@,
        Agreement::NoSignal.label() == "no_signal"@,
{
}

} // verus!
