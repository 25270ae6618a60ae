//! An index over past reviews: what was found, what humans said of it, and what
//! became of rules and skills. Rows are added, and hardly ever changed.

use vstd::prelude::*;

use crate::names::NameSet;
use crate::schema::{FeedbackVerdict, Finding, FindingSourceKind, ReviewReport};
use crate::text;

verus! {

/// One recorded agent finding, as rule mining sees it.
#[derive(Debug, Clone, PartialEq, Eq)]
pub struct MinedFindingRow {
    pub fingerprint: String,
    pub category: String,
    pub rule_id_or_aspect: String,
    pub title: String,
    pub message: String,
    pub run_id: String,
}

/// What a `MinedFindingRow` says.
pub struct MinedRowView {
    pub fingerprint: Seq<char>,
    pub category: Seq<char>,
    pub rule_id_or_aspect: Seq<char>,
    pub title: Seq<char>,
    pub message: Seq<char>,
    pub run_id: Seq<char>,
}

impl View for MinedFindingRow {
    type V = MinedRowView;

    open spec fn view(&self) -> MinedRowView {
        MinedRowView {
            fingerprint: self.fingerprint@,
            category: self.category@,
            rule_id_or_aspect: self.rule_id_or_aspect@,
            title: self.title@,
            message: self.message@,
            run_id: self.run_id@,
        }
    }
}

/// One false-positive report with a note.
#[derive(Debug, Clone, PartialEq, Eq)]
pub struct FpFeedbackRow {
    pub category: String,
    pub rule_id_or_aspect: String,
    pub title: String,
    pub message: String,
    pub note: String,
}

/// What a `FpFeedbackRow` says.
pub struct FpRowView {
    pub category: Seq<char>,
    pub rule_id_or_aspect: Seq<char>,
    pub title: Seq<char>,
    pub message: Seq<char>,
    pub note: Seq<char>,
}

impl View for FpFeedbackRow {
    type V = FpRowView;

    open spec fn view(&self) -> FpRowView {
        FpRowView {
            category: self.category@,
            rule_id_or_aspect: self.rule_id_or_aspect@,
            title: self.title@,
            message: self.message@,
            note: self.note@,
        }
    }
}

/// One finding of a past run with what a human said of it.
#[derive(Debug, Clone, PartialEq, Eq)]
pub struct KnownVerdict {
    pub title: String,
    pub message: String,
    pub fingerprint: String,
    pub verdict: String,
}

/// What a `KnownVerdict` says.
pub struct KnownVerdictView {
    pub title: Seq<char>,
    pub message: Seq<char>,
    pub fingerprint: Seq<char>,
    pub verdict: Seq<char>,
}

impl View for KnownVerdict {
    type V = KnownVerdictView;

    open spec fn view(&self) -> KnownVerdictView {
        KnownVerdictView {
            title: self.title@,
            message: self.message@,
            fingerprint: self.fingerprint@,
            verdict: self.verdict@,
        }
    }
}

/// What is known of a finding that feedback is given on.
#[derive(Debug, Clone, PartialEq, Eq)]
pub struct FindingLookup {
    pub fingerprint: String,
    pub category: String,
    pub severity: String,
    pub rule_id_or_tool: String,
    pub title: String,
    pub message: String,
}

/// What a `FindingLookup` says.
pub struct LookupView {
    pub fingerprint: Seq<char>,
    pub category: Seq<char>,
    pub severity: Seq<char>,
    pub rule_id_or_tool: Seq<char>,
    pub title: Seq<char>,
    pub message: Seq<char>,
}

impl View for FindingLookup {
    type V = LookupView;

    open spec fn view(&self) -> LookupView {
        LookupView {
            fingerprint: self.fingerprint@,
            category: self.category@,
            severity: self.severity@,
            rule_id_or_tool: self.rule_id_or_tool@,
            title: self.title@,
            message: self.message@,
        }
    }
}

/// A finding as it is recorded.
#[derive(Debug, Clone, PartialEq, Eq)]
pub struct FindingRow {
    pub finding_id: String,
    pub fingerprint: String,
    pub category: String,
    pub severity: String,
    pub source_kind: String,
    pub source_tool: String,
    pub rule_id: Option<String>,
    pub run_id: String,
    pub created_at: String,
    pub title: String,
    pub message: String,
}

/// What a `FindingRow` says.
pub struct FindingRowView {
    pub finding_id: Seq<char>,
    pub fingerprint: Seq<char>,
    pub category: Seq<char>,
    pub severity: Seq<char>,
    pub source_kind: Seq<char>,
    pub source_tool: Seq<char>,
    pub rule_id: Option<Seq<char>>,
    pub run_id: Seq<char>,
    pub created_at: Seq<char>,
    pub title: Seq<char>,
    pub message: Seq<char>,
}

impl View for FindingRow {
    type V = FindingRowView;

    open spec fn view(&self) -> FindingRowView {
        FindingRowView {
            finding_id: self.finding_id@,
            fingerprint: self.fingerprint@,
            category: self.category@,
            severity: self.severity@,
            source_kind: self.source_kind@,
            source_tool: self.source_tool@,
            rule_id: text::optional(self.rule_id),
            run_id: self.run_id@,
            created_at: self.created_at@,
            title: self.title@,
            message: self.message@,
        }
    }
}

impl FindingRowView {
    /// The rule of the finding, else its tool.
    pub open spec fn rule_or_tool(self) -> Seq<char> {
        match self.rule_id {
            Some(rule) => rule,
            None => self.source_tool,
        }
    }

    /// What feedback on the finding is recorded with.
    pub open spec fn lookup(self) -> LookupView {
        LookupView {
            fingerprint: self.fingerprint,
            category: self.category,
            severity: self.severity,
            rule_id_or_tool: self.rule_or_tool(),
            title: self.title,
            message: self.message,
        }
    }

    /// The finding as rule mining sees it.
    pub open spec fn mined(self) -> MinedRowView {
        MinedRowView {
            fingerprint: self.fingerprint,
            category: self.category,
            rule_id_or_aspect: self.rule_or_tool(),
            title: self.title,
            message: self.message,
            run_id: self.run_id,
        }
    }
}

impl FindingRow {
    fn rule_or_tool(&self) -> (name: String)
        ensures
            name@ == self@.rule_or_tool(),
    {
        match &self.rule_id {
            Some(rule) => rule.clone(),
            None => self.source_tool.clone(),
        }
    }
}

/// A piece of feedback as it is recorded.
#[derive(Debug, Clone, PartialEq, Eq)]
pub struct FeedbackRow {
    pub finding_id: String,
    pub fingerprint: String,
    pub category: String,
    pub rule_id_or_aspect: String,
    pub severity: String,
    pub verdict: String,
    pub note: Option<String>,
    pub created_at: String,
    pub title: String,
    pub message: String,
}

/// What a `FeedbackRow` says.
pub struct FeedbackRowView {
    pub finding_id: Seq<char>,
    pub fingerprint: Seq<char>,
    pub category: Seq<char>,
    pub rule_id_or_aspect: Seq<char>,
    pub severity: Seq<char>,
    pub verdict: Seq<char>,
    pub note: Option<Seq<char>>,
    pub created_at: Seq<char>,
    pub title: Seq<char>,
    pub message: Seq<char>,
}

impl View for FeedbackRow {
    type V = FeedbackRowView;

    open spec fn view(&self) -> FeedbackRowView {
        FeedbackRowView {
            finding_id: self.finding_id@,
            fingerprint: self.fingerprint@,
            category: self.category@,
            rule_id_or_aspect: self.rule_id_or_aspect@,
            severity: self.severity@,
            verdict: self.verdict@,
            note: text::optional(self.note),
            created_at: self.created_at@,
            title: self.title@,
            message: self.message@,
        }
    }
}

/// What became of a rule so far.
#[derive(Debug, Clone, PartialEq, Eq)]
pub struct RuleState {
    pub status: String,
    pub firings: u32,
    pub agent_agreed: u32,
    pub agent_disagreed: u32,
    pub valid_from: String,
    pub invalid_at: Option<String>,
}

/// What a `RuleState` says.
pub struct RuleStateView {
    pub status: Seq<char>,
    pub firings: u32,
    pub agent_agreed: u32,
    pub agent_disagreed: u32,
    pub valid_from: Seq<char>,
    pub invalid_at: Option<Seq<char>>,
}

impl View for RuleState {
    type V = RuleStateView;

    open spec fn view(&self) -> RuleStateView {
        RuleStateView {
            status: self.status@,
            firings: self.firings,
            agent_agreed: self.agent_agreed,
            agent_disagreed: self.agent_disagreed,
            valid_from: self.valid_from@,
            invalid_at: text::optional(self.invalid_at),
        }
    }
}

/// A rule that is followed.
#[derive(Debug, Clone, PartialEq, Eq)]
pub struct RuleRow {
    pub id: String,
    pub state: RuleState,
}

/// What a `RuleRow` says.
pub struct RuleRowView {
    pub id: Seq<char>,
    pub state: RuleStateView,
}

impl View for RuleRow {
    type V = RuleRowView;

    open spec fn view(&self) -> RuleRowView {
        RuleRowView { id: self.id@, state: self.state@ }
    }
}

/// One firing of a rule.
#[derive(Debug, Clone, PartialEq, Eq)]
pub struct ShadowFiringRow {
    pub fingerprint: String,
    pub run_id: String,
    pub location_path: String,
    pub location_line: u32,
    pub agreement: String,
    pub created_at: String,
}

/// What a `ShadowFiringRow` says.
pub struct FiringView {
    pub fingerprint: Seq<char>,
    pub run_id: Seq<char>,
    pub location_path: Seq<char>,
    pub location_line: u32,
    pub agreement: Seq<char>,
    pub created_at: Seq<char>,
}

impl View for ShadowFiringRow {
    type V = FiringView;

    open spec fn view(&self) -> FiringView {
        FiringView {
            fingerprint: self.fingerprint@,
            run_id: self.run_id@,
            location_path: self.location_path@,
            location_line: self.location_line,
            agreement: self.agreement@,
            created_at: self.created_at@,
        }
    }
}

impl ShadowFiringRow {
    /// The firing once more.
    pub fn dup(&self) -> (row: ShadowFiringRow)
        ensures
            row@ == self@,
    {
        ShadowFiringRow {
            fingerprint: self.fingerprint.clone(),
            run_id: self.run_id.clone(),
            location_path: self.location_path.clone(),
            location_line: self.location_line,
            agreement: self.agreement.clone(),
            created_at: self.created_at.clone(),
        }
    }
}

/// One firing, with the rule that fired.
#[derive(Debug, Clone, PartialEq, Eq)]
pub struct RuleFiringRow {
    pub rule_id: String,
    pub firing: ShadowFiringRow,
}

/// What a `RuleFiringRow` says.
pub struct RuleFiringView {
    pub rule_id: Seq<char>,
    pub firing: FiringView,
}

impl View for RuleFiringRow {
    type V = RuleFiringView;

    open spec fn view(&self) -> RuleFiringView {
        RuleFiringView { rule_id: self.rule_id@, firing: self.firing@ }
    }
}

/// A version of a skill, with its instructions where those were kept.
#[derive(Debug, Clone, PartialEq, Eq)]
pub struct SkillVersionRow {
    pub aspect: String,
    pub version: String,
    pub source: Option<String>,
    pub valid_from: String,
}

/// What a `SkillVersionRow` says.
pub struct SkillVersionView {
    pub aspect: Seq<char>,
    pub version: Seq<char>,
    pub source: Option<Seq<char>>,
    pub valid_from: Seq<char>,
}

impl View for SkillVersionRow {
    type V = SkillVersionView;

    open spec fn view(&self) -> SkillVersionView {
        SkillVersionView {
            aspect: self.aspect@,
            version: self.version@,
            source: text::optional(self.source),
            valid_from: self.valid_from@,
        }
    }
}

/// The embedding of a finding that feedback was given on, as bytes.
#[derive(Debug, Clone, PartialEq, Eq)]
pub struct EmbeddingRow {
    pub fingerprint: String,
    pub verdict: String,
    pub embedding: Vec<u8>,
    pub created_at: String,
}

/// What an `EmbeddingRow` says.
pub struct EmbeddingView {
    pub fingerprint: Seq<char>,
    pub verdict: Seq<char>,
    pub embedding: Seq<u8>,
    pub created_at: Seq<char>,
}

impl View for EmbeddingRow {
    type V = EmbeddingView;

    open spec fn view(&self) -> EmbeddingView {
        EmbeddingView {
            fingerprint: self.fingerprint@,
            verdict: self.verdict@,
            embedding: self.embedding@,
            created_at: self.created_at@,
        }
    }
}

/// The index, a list of rows for each kind, in the order in which they were added.
#[derive(Debug)]
pub struct HistoryStore {
    pub findings: Vec<FindingRow>,
    pub feedback: Vec<FeedbackRow>,
    pub rules: Vec<RuleRow>,
    pub firings: Vec<RuleFiringRow>,
    pub skill_versions: Vec<SkillVersionRow>,
    pub embeddings: Vec<EmbeddingRow>,
}

/// What a `HistoryStore` holds.
pub struct HistoryView {
    pub findings: Seq<FindingRowView>,
    pub feedback: Seq<FeedbackRowView>,
    pub rules: Seq<RuleRowView>,
    pub firings: Seq<RuleFiringView>,
    pub skill_versions: Seq<SkillVersionView>,
    pub embeddings: Seq<EmbeddingView>,
}

impl View for HistoryStore {
    type V = HistoryView;

    open spec fn view(&self) -> HistoryView {
        HistoryView {
            findings: text::views(self.findings@),
            feedback: text::views(self.feedback@),
            rules: text::views(self.rules@),
            firings: text::views(self.firings@),
            skill_versions: text::views(self.skill_versions@),
            embeddings: text::views(self.embeddings@),
        }
    }
}

impl HistoryView {
    /// No rule is followed twice, and no version of a skill is there twice.
    pub open spec fn well_formed(self) -> bool {
        &&& forall|i: int, j: int|
            0 <= i < j < self.rules.len() ==> (#[trigger] self.rules[i]).id != (
            #[trigger] self.rules[j]).id
        &&& forall|i: int, j: int|
            0 <= i < j < self.skill_versions.len() ==> {
                ||| (#[trigger] self.skill_versions[i]).aspect != (
                #[trigger] self.skill_versions[j]).aspect
                ||| self.skill_versions[i].version != self.skill_versions[j].version
            }
    }
}

/// The row of a finding.
pub open spec fn row_of(
    finding: Finding,
    run_id: Seq<char>,
    created_at: Seq<char>,
) -> FindingRowView {
    FindingRowView {
        finding_id: finding.id@,
        fingerprint: finding.fingerprint@,
        category: finding.category@,
        severity: finding.severity.label(),
        source_kind: finding.source.kind.label(),
        source_tool: finding.source.tool@,
        rule_id: text::optional(finding.source.rule_id),
        run_id,
        created_at,
        title: finding.title@,
        message: finding.message@,
    }
}

/// The rows of a review, one for each finding.
pub open spec fn rows_of(report: ReviewReport) -> Seq<FindingRowView> {
    Seq::new(
        report.findings@.len(),
        |i: int| row_of(report.findings@[i], report.run_id@, report.created_at@),
    )
}

fn finding_row(finding: &Finding, run_id: &str, created_at: &str) -> (row: FindingRow)
    ensures
        row@ == row_of(*finding, run_id@, created_at@),
{
    FindingRow {
        finding_id: finding.id.clone(),
        fingerprint: finding.fingerprint.clone(),
        category: finding.category.clone(),
        severity: finding.severity.as_str().to_owned(),
        source_kind: finding.source.kind.as_str().to_owned(),
        source_tool: finding.source.tool.clone(),
        rule_id: match &finding.source.rule_id {
            Some(rule) => Some(rule.clone()),
            None => None,
        },
        run_id: run_id.to_owned(),
        created_at: created_at.to_owned(),
        title: finding.title.clone(),
        message: finding.message.clone(),
    }
}

/// The finding that was recorded last, of those with an id where one is given:
/// the first of those with the latest date.
pub open spec fn latest_of(
    rows: Seq<FindingRowView>,
    id: Option<Seq<char>>,
) -> Option<FindingRowView>
    decreases rows.len(),
{
    if rows.len() == 0 {
        None
    } else {
        let best = latest_of(rows.drop_last(), id);
        if id is Some && rows.last().finding_id != id->Some_0 {
            best
        } else {
            match best {
                Some(b) => if text::precedes(b.created_at, rows.last().created_at) {
                    Some(rows.last())
                } else {
                    best
                },
                None => Some(rows.last()),
            }
        }
    }
}

fn latest<'a>(rows: &'a Vec<FindingRow>, id: Option<&str>) -> (row: Option<&'a FindingRow>)
    ensures
        match row {
            Some(r) => latest_of(
                text::views(rows@),
                match id {
                    Some(i) => Some(i@),
                    None => None,
                },
            ) == Some(r@),
            None => latest_of(
                text::views(rows@),
                match id {
                    Some(i) => Some(i@),
                    None => None,
                },
            ) is None,
        },
{
    let ghost all = text::views(rows@);
    let ghost wanted: Option<Seq<char>> = match id {
        Some(i) => Some(i@),
        None => None,
    };
    let mut best: Option<&'a FindingRow> = None;
    let mut i: usize = 0;
    while i < rows.len()
        invariant
            0 <= i <= rows@.len(),
            all == text::views(rows@),
            wanted == (match id {
                Some(i) => Some(i@),
                None => None,
            }),
            match best {
                Some(b) => latest_of(all.take(i as int), wanted) == Some(b@),
                None => latest_of(all.take(i as int), wanted) is None,
            },
        decreases rows.len() - i,
    {
        let row: &'a FindingRow = &rows[i];
        proof {
            assert(all.take(i + 1).drop_last() =~= all.take(i as int));
            assert(all.take(i + 1).last() == row@);
        }
        let fits: bool = match id {
            Some(id) => text::same(row.finding_id.as_str(), id),
            None => true,
        };
        if fits {
            match best {
                Some(b) => {
                    if text::before(b.created_at.as_str(), row.created_at.as_str()) {
                        best = Some(row);
                    }
                },
                None => {
                    best = Some(row);
                },
            }
        }
        i += 1;
    }
    proof {
        assert(all.take(all.len() as int) =~= all);
    }
    best
}

/// The false-positive reports with a note, in order.
pub open spec fn noted(rows: Seq<FeedbackRowView>) -> Seq<FpRowView>
    decreases rows.len(),
{
    if rows.len() == 0 {
        Seq::empty()
    } else {
        let row = rows.last();
        let rest = noted(rows.drop_last());
        match row.note {
            Some(note) => if row.verdict == FeedbackVerdict::FalsePositive.label() && note.len()
                > 0 {
                rest.push(
                    FpRowView {
                        category: row.category,
                        rule_id_or_aspect: row.rule_id_or_aspect,
                        title: row.title,
                        message: row.message,
                        note,
                    },
                )
            } else {
                rest
            },
            None => rest,
        }
    }
}

/// What was said of a finding: a verdict for each piece of feedback on its
/// fingerprint, in order.
pub open spec fn verdicts_on(
    finding: FindingRowView,
    feedback: Seq<FeedbackRowView>,
) -> Seq<KnownVerdictView>
    decreases feedback.len(),
{
    if feedback.len() == 0 {
        Seq::empty()
    } else if feedback.last().fingerprint == finding.fingerprint {
        verdicts_on(finding, feedback.drop_last()).push(
            KnownVerdictView {
                title: finding.title,
                message: finding.message,
                fingerprint: finding.fingerprint,
                verdict: feedback.last().verdict,
            },
        )
    } else {
        verdicts_on(finding, feedback.drop_last())
    }
}

/// What was said of the findings of a run.
pub open spec fn verdicts_in(
    findings: Seq<FindingRowView>,
    feedback: Seq<FeedbackRowView>,
    run_id: Seq<char>,
) -> Seq<KnownVerdictView>
    decreases findings.len(),
{
    if findings.len() == 0 {
        Seq::empty()
    } else if findings.last().run_id == run_id {
        verdicts_in(findings.drop_last(), feedback, run_id) + verdicts_on(findings.last(), feedback)
    } else {
        verdicts_in(findings.drop_last(), feedback, run_id)
    }
}

/// Feedback was given on a fingerprint.
pub open spec fn judged(fingerprint: Seq<char>, feedback: Seq<FeedbackRowView>) -> bool {
    exists|i: int| 0 <= i < feedback.len() && (#[trigger] feedback[i]).fingerprint == fingerprint
}

/// The runs of the findings on which feedback was given.
pub open spec fn judged_runs(
    findings: Seq<FindingRowView>,
    feedback: Seq<FeedbackRowView>,
) -> Seq<Seq<char>>
    decreases findings.len(),
{
    if findings.len() == 0 {
        Seq::empty()
    } else if judged(findings.last().fingerprint, feedback) {
        judged_runs(findings.drop_last(), feedback).push(findings.last().run_id)
    } else {
        judged_runs(findings.drop_last(), feedback)
    }
}

/// The findings that agents made, as rule mining sees them.
pub open spec fn mined_from(rows: Seq<FindingRowView>) -> Seq<MinedRowView>
    decreases rows.len(),
{
    if rows.len() == 0 {
        Seq::empty()
    } else if rows.last().source_kind == FindingSourceKind::Agent.label() {
        mined_from(rows.drop_last()).push(rows.last().mined())
    } else {
        mined_from(rows.drop_last())
    }
}

/// How many findings are of a run.
pub open spec fn findings_of(rows: Seq<FindingRowView>, run_id: Seq<char>) -> nat
    decreases rows.len(),
{
    if rows.len() == 0 {
        0
    } else {
        findings_of(rows.drop_last(), run_id) + if rows.last().run_id == run_id {
            1nat
        } else {
            0
        }
    }
}

/// How many pieces of feedback are on a fingerprint.
pub open spec fn feedback_on(rows: Seq<FeedbackRowView>, fingerprint: Seq<char>) -> nat
    decreases rows.len(),
{
    if rows.len() == 0 {
        0
    } else {
        feedback_on(rows.drop_last(), fingerprint) + if rows.last().fingerprint == fingerprint {
            1nat
        } else {
            0
        }
    }
}

/// How often a rule was reported as a false positive.
pub open spec fn reports_on(rows: Seq<FeedbackRowView>, rule_id: Seq<char>) -> nat
    decreases rows.len(),
{
    if rows.len() == 0 {
        0
    } else {
        reports_on(rows.drop_last(), rule_id) + if rows.last().rule_id_or_aspect == rule_id
            && rows.last().verdict == FeedbackVerdict::FalsePositive.label() {
            1nat
        } else {
            0
        }
    }
}

/// A piece of feedback on a finding.
pub open spec fn feedback_row(
    finding_id: Seq<char>,
    lookup: LookupView,
    verdict: FeedbackVerdict,
    note: Option<Seq<char>>,
    created_at: Seq<char>,
) -> FeedbackRowView {
    FeedbackRowView {
        finding_id,
        fingerprint: lookup.fingerprint,
        category: lookup.category,
        rule_id_or_aspect: lookup.rule_id_or_tool,
        severity: lookup.severity,
        verdict: verdict.label(),
        note,
        created_at,
        title: lookup.title,
        message: lookup.message,
    }
}

impl HistoryStore {
    /// An index without rows.
    pub fn open_in_memory() -> (store: HistoryStore)
        ensures
            store@ == (HistoryView {
                findings: Seq::empty(),
                feedback: Seq::empty(),
                rules: Seq::empty(),
                firings: Seq::empty(),
                skill_versions: Seq::empty(),
                embeddings: Seq::empty(),
            }),
            store@.well_formed(),
    {
        let store = HistoryStore {
            findings: Vec::new(),
            feedback: Vec::new(),
            rules: Vec::new(),
            firings: Vec::new(),
            skill_versions: Vec::new(),
            embeddings: Vec::new(),
        };
        proof {
            assert(store@.findings =~= Seq::empty());
            assert(store@.feedback =~= Seq::empty());
            assert(store@.rules =~= Seq::empty());
            assert(store@.firings =~= Seq::empty());
            assert(store@.skill_versions =~= Seq::empty());
            assert(store@.embeddings =~= Seq::empty());
        }
        store
    }

    /// Adds the findings of a review.
    pub fn record_run(&mut self, report: &ReviewReport)
        ensures
            final(self)@ == (HistoryView {
                findings: old(self)@.findings + rows_of(*report),
                ..old(self)@
            }),
    {
        let ghost before = self@;
        let ghost rows = rows_of(*report);
        let mut i: usize = 0;
        proof {
            assert(before.findings + rows.take(0) =~= before.findings);
        }
        while i < report.findings.len()
            invariant
                0 <= i <= report.findings@.len(),
                rows == rows_of(*report),
                self@ == (HistoryView {
                    findings: before.findings + rows.take(i as int),
                    ..before
                }),
            decreases report.findings.len() - i,
        {
            let row: FindingRow = finding_row(
                &report.findings[i],
                report.run_id.as_str(),
                report.created_at.as_str(),
            );
            proof {
                text::lemma_views_push(self.findings@, row);
                assert(rows.take(i + 1) =~= rows.take(i as int).push(row@));
                assert((before.findings + rows.take(i as int)).push(row@) =~= before.findings
                    + rows.take(i + 1));
            }
            self.findings.push(row);
            i += 1;
        }
        proof {
            assert(rows.take(rows.len() as int) =~= rows);
        }
    }

    /// The run that was recorded last, by its date.
    pub fn most_recent_run_id(&self) -> (run_id: Option<String>)
        ensures
            text::optional(run_id) == (match latest_of(self@.findings, None) {
                Some(row) => Some(row.run_id),
                None => None,
            }),
    {
        match latest(&self.findings, None) {
            Some(row) => Some(row.run_id.clone()),
            None => None,
        }
    }

    /// The fingerprints of the findings of a run.
    pub fn fingerprints_for_run(&self, run_id: &str) -> (prints: NameSet)
        ensures
            forall|f: Seq<char>| #[trigger]
                prints@.contains(f) <==> exists|i: int|
                    0 <= i < self@.findings.len() && (#[trigger] self@.findings[i]).run_id == run_id@
                        && self@.findings[i].fingerprint == f,
    {
        let ghost all = self@.findings;
        let mut prints: NameSet = NameSet::new();
        let mut i: usize = 0;
        while i < self.findings.len()
            invariant
                0 <= i <= self.findings@.len(),
                all == self@.findings,
                forall|f: Seq<char>| #[trigger]
                    prints@.contains(f) <==> exists|j: int|
                        0 <= j < i && (#[trigger] all[j]).run_id == run_id@ && all[j].fingerprint
                            == f,
            decreases self.findings.len() - i,
        {
            let row: &FindingRow = &self.findings[i];
            let ghost before = prints@;
            proof {
                assert(all[i as int] == row@);
            }
            if text::same(row.run_id.as_str(), run_id) {
                prints.insert(row.fingerprint.as_str());
                proof {
                    assert forall|f: Seq<char>| #[trigger] prints@.contains(f) <==> exists|j: int|
                        0 <= j < i + 1 && (#[trigger] all[j]).run_id == run_id@
                            && all[j].fingerprint == f by {
                        if f != row.fingerprint@ {
                            assert(before.contains(f) <==> prints@.contains(f));
                        }
                    }
                }
            } else {
                proof {
                    assert forall|f: Seq<char>| #[trigger] prints@.contains(f) <==> exists|j: int|
                        0 <= j < i + 1 && (#[trigger] all[j]).run_id == run_id@
                            && all[j].fingerprint == f by {
                        assert(before.contains(f) <==> prints@.contains(f));
                    }
                }
            }
            i += 1;
        }
        prints
    }

    /// What is known of the finding with an id that was recorded last.
    pub fn find_finding_by_id(&self, finding_id: &str) -> (lookup: Option<FindingLookup>)
        ensures
            match lookup {
                Some(l) => latest_of(self@.findings, Some(finding_id@)) matches Some(row) && l@
                    == row.lookup(),
                None => latest_of(self@.findings, Some(finding_id@)) is None,
            },
    {
        match latest(&self.findings, Some(finding_id)) {
            Some(row) => Some(
                FindingLookup {
                    fingerprint: row.fingerprint.clone(),
                    category: row.category.clone(),
                    severity: row.severity.clone(),
                    rule_id_or_tool: row.rule_or_tool(),
                    title: row.title.clone(),
                    message: row.message.clone(),
                },
            ),
            None => None,
        }
    }

    /// Adds a piece of feedback on a finding.
    pub fn record_feedback(
        &mut self,
        finding_id: &str,
        lookup: &FindingLookup,
        verdict: FeedbackVerdict,
        note: Option<&str>,
        created_at: &str,
    )
        ensures
            final(self)@ == (HistoryView {
                feedback: old(self)@.feedback.push(
                    feedback_row(
                        finding_id@,
                        lookup@,
                        verdict,
                        match note {
                            Some(n) => Some(n@),
                            None => None,
                        },
                        created_at@,
                    ),
                ),
                ..old(self)@
            }),
    {
        let row = FeedbackRow {
            finding_id: finding_id.to_owned(),
            fingerprint: lookup.fingerprint.clone(),
            category: lookup.category.clone(),
            rule_id_or_aspect: lookup.rule_id_or_tool.clone(),
            severity: lookup.severity.clone(),
            verdict: verdict.as_str().to_owned(),
            note: match note {
                Some(n) => Some(n.to_owned()),
                None => None,
            },
            created_at: created_at.to_owned(),
            title: lookup.title.clone(),
            message: lookup.message.clone(),
        };
        proof {
            text::lemma_views_push(self.feedback@, row);
        }
        self.feedback.push(row);
    }

    /// The false-positive reports with a note, in order. One without says nothing
    /// of why.
    pub fn fp_feedback_with_notes(&self) -> (rows: Vec<FpFeedbackRow>)
        ensures
            text::views(rows@) == noted(self@.feedback),
    {
        let ghost all = self@.feedback;
        let mut rows: Vec<FpFeedbackRow> = Vec::new();
        proof {
            assert(text::views(rows@) =~= Seq::empty());
        }
        let mut i: usize = 0;
        while i < self.feedback.len()
            invariant
                0 <= i <= self.feedback@.len(),
                all == self@.feedback,
                text::views(rows@) == noted(all.take(i as int)),
            decreases self.feedback.len() - i,
        {
            let row: &FeedbackRow = &self.feedback[i];
            proof {
                assert(all.take(i + 1).drop_last() =~= all.take(i as int));
                assert(all.take(i + 1).last() == row@);
            }
            if let Some(note) = &row.note {
                if text::same(row.verdict.as_str(), FeedbackVerdict::FalsePositive.as_str())
                    && note.as_str().unicode_len() > 0 {
                    let found = FpFeedbackRow {
                        category: row.category.clone(),
                        rule_id_or_aspect: row.rule_id_or_aspect.clone(),
                        title: row.title.clone(),
                        message: row.message.clone(),
                        note: note.clone(),
                    };
                    proof {
                        text::lemma_views_push(rows@, found);
                    }
                    rows.push(found);
                }
            }
            i += 1;
        }
        proof {
            assert(all.take(all.len() as int) =~= all);
        }
        rows
    }

    fn add_verdicts_on(&self, finding: &FindingRow, known: &mut Vec<KnownVerdict>)
        ensures
            text::views(final(known)@) == text::views(old(known)@) + verdicts_on(
                finding@,
                self@.feedback,
            ),
    {
        let ghost before = text::views(known@);
        let ghost all = self@.feedback;
        let mut i: usize = 0;
        proof {
            assert(before + verdicts_on(finding@, all.take(0)) =~= before);
        }
        while i < self.feedback.len()
            invariant
                0 <= i <= self.feedback@.len(),
                all == self@.feedback,
                text::views(known@) == before + verdicts_on(finding@, all.take(i as int)),
            decreases self.feedback.len() - i,
        {
            let row: &FeedbackRow = &self.feedback[i];
            proof {
                assert(all.take(i + 1).drop_last() =~= all.take(i as int));
                assert(all.take(i + 1).last() == row@);
            }
            if text::same(row.fingerprint.as_str(), finding.fingerprint.as_str()) {
                let verdict = KnownVerdict {
                    title: finding.title.clone(),
                    message: finding.message.clone(),
                    fingerprint: finding.fingerprint.clone(),
                    verdict: row.verdict.clone(),
                };
                proof {
                    text::lemma_views_push(known@, verdict);
                    let had = verdicts_on(finding@, all.take(i as int));
                    assert((before + had).push(verdict@) =~= before + had.push(verdict@));
                }
                known.push(verdict);
            }
            i += 1;
        }
        proof {
            assert(all.take(all.len() as int) =~= all);
        }
    }

    /// What was said of the findings of a run.
    pub fn known_verdicts_for_run(&self, run_id: &str) -> (known: Vec<KnownVerdict>)
        ensures
            text::views(known@) == verdicts_in(self@.findings, self@.feedback, run_id@),
    {
        let ghost all = self@.findings;
        let mut known: Vec<KnownVerdict> = Vec::new();
        proof {
            assert(text::views(known@) =~= Seq::empty());
        }
        let mut i: usize = 0;
        while i < self.findings.len()
            invariant
                0 <= i <= self.findings@.len(),
                all == self@.findings,
                text::views(known@) == verdicts_in(all.take(i as int), self@.feedback, run_id@),
            decreases self.findings.len() - i,
        {
            let row: &FindingRow = &self.findings[i];
            proof {
                assert(all.take(i + 1).drop_last() =~= all.take(i as int));
                assert(all.take(i + 1).last() == row@);
            }
            if text::same(row.run_id.as_str(), run_id) {
                self.add_verdicts_on(row, &mut known);
            }
            i += 1;
        }
        proof {
            assert(all.take(all.len() as int) =~= all);
        }
        known
    }

    fn is_judged(&self, fingerprint: &str) -> (r: bool)
        ensures
            r == judged(fingerprint@, self@.feedback),
    {
        let mut i: usize = 0;
        while i < self.feedback.len()
            invariant
                0 <= i <= self.feedback@.len(),
                forall|j: int|
                    0 <= j < i ==> (#[trigger] self@.feedback[j]).fingerprint != fingerprint@,
            decreases self.feedback.len() - i,
        {
            if text::same(self.feedback[i].fingerprint.as_str(), fingerprint) {
                proof {
                    assert(self@.feedback[i as int].fingerprint == fingerprint@);
                }
                return true;
            }
            i += 1;
        }
        false
    }

    /// The runs of the findings on which feedback was given, each once.
    pub fn runs_with_known_verdicts(&self) -> (runs: Vec<String>)
        ensures
            text::views(runs@) == text::distinct_of(judged_runs(self@.findings, self@.feedback)),
    {
        let ghost all = self@.findings;
        let mut runs: Vec<String> = Vec::new();
        proof {
            assert(text::views(runs@) =~= Seq::empty());
        }
        let mut i: usize = 0;
        while i < self.findings.len()
            invariant
                0 <= i <= self.findings@.len(),
                all == self@.findings,
                text::views(runs@) == judged_runs(all.take(i as int), self@.feedback),
            decreases self.findings.len() - i,
        {
            let row: &FindingRow = &self.findings[i];
            proof {
                assert(all.take(i + 1).drop_last() =~= all.take(i as int));
                assert(all.take(i + 1).last() == row@);
            }
            if self.is_judged(row.fingerprint.as_str()) {
                let run: String = row.run_id.clone();
                proof {
                    text::lemma_views_push(runs@, run);
                }
                runs.push(run);
            }
            i += 1;
        }
        proof {
            assert(all.take(all.len() as int) =~= all);
        }
        text::distinct(&runs)
    }

    /// The findings that agents made, repeated ones too. Those of analyzers have
    /// nothing to mine a rule from.
    pub fn agent_findings_for_mining(&self) -> (rows: Vec<MinedFindingRow>)
        ensures
            text::views(rows@) == mined_from(self@.findings),
    {
        let ghost all = self@.findings;
        let mut rows: Vec<MinedFindingRow> = Vec::new();
        proof {
            assert(text::views(rows@) =~= Seq::empty());
        }
        let mut i: usize = 0;
        while i < self.findings.len()
            invariant
                0 <= i <= self.findings@.len(),
                all == self@.findings,
                text::views(rows@) == mined_from(all.take(i as int)),
            decreases self.findings.len() - i,
        {
            let row: &FindingRow = &self.findings[i];
            proof {
                assert(all.take(i + 1).drop_last() =~= all.take(i as int));
                assert(all.take(i + 1).last() == row@);
            }
            if text::same(row.source_kind.as_str(), FindingSourceKind::Agent.as_str()) {
                let found = MinedFindingRow {
                    fingerprint: row.fingerprint.clone(),
                    category: row.category.clone(),
                    rule_id_or_aspect: row.rule_or_tool(),
                    title: row.title.clone(),
                    message: row.message.clone(),
                    run_id: row.run_id.clone(),
                };
                proof {
                    text::lemma_views_push(rows@, found);
                }
                rows.push(found);
            }
            i += 1;
        }
        proof {
            assert(all.take(all.len() as int) =~= all);
        }
        rows
    }

    /// How often a rule was reported as a false positive, or the largest `u32`
    /// where that is less. That a rule does not apply is no such report.
    pub fn count_fp_feedback_for_rule(&self, rule_id: &str) -> (n: u32)
        ensures
            n == if reports_on(self@.feedback, rule_id@) <= u32::MAX {
                reports_on(self@.feedback, rule_id@)
            } else {
                u32::MAX as nat
            },
    {
        let ghost all = self@.feedback;
        let mut n: usize = 0;
        let mut i: usize = 0;
        while i < self.feedback.len()
            invariant
                0 <= i <= self.feedback@.len(),
                n <= i,
                all == self@.feedback,
                n == reports_on(all.take(i as int), rule_id@),
            decreases self.feedback.len() - i,
        {
            let row: &FeedbackRow = &self.feedback[i];
            proof {
                assert(all.take(i + 1).drop_last() =~= all.take(i as int));
                assert(all.take(i + 1).last() == row@);
            }
            if text::same(row.rule_id_or_aspect.as_str(), rule_id) && text::same(
                row.verdict.as_str(),
                FeedbackVerdict::FalsePositive.as_str(),
            ) {
                n += 1;
            }
            i += 1;
        }
        proof {
            assert(all.take(all.len() as int) =~= all);
        }
        if n as u64 <= u32::MAX as u64 {
            n as u32
        } else {
            u32::MAX
        }
    }

    /// How many findings are recorded.
    pub fn count_findings(&self) -> (n: usize)
        ensures
            n == self@.findings.len(),
    {
        self.findings.len()
    }

    /// How many findings of a run are recorded.
    pub fn count_findings_for_run(&self, run_id: &str) -> (n: usize)
        ensures
            n == findings_of(self@.findings, run_id@),
    {
        let ghost all = self@.findings;
        let mut n: usize = 0;
        let mut i: usize = 0;
        while i < self.findings.len()
            invariant
                0 <= i <= self.findings@.len(),
                n <= i,
                all == self@.findings,
                n == findings_of(all.take(i as int), run_id@),
            decreases self.findings.len() - i,
        {
            proof {
                assert(all.take(i + 1).drop_last() =~= all.take(i as int));
                assert(all.take(i + 1).last() == self.findings@[i as int]@);
            }
            if text::same(self.findings[i].run_id.as_str(), run_id) {
                n += 1;
            }
            i += 1;
        }
        proof {
            assert(all.take(all.len() as int) =~= all);
        }
        n
    }

    /// How many pieces of feedback on a fingerprint are recorded.
    pub fn count_feedback_for_fingerprint(&self, fingerprint: &str) -> (n: usize)
        ensures
            n == feedback_on(self@.feedback, fingerprint@),
    {
        let ghost all = self@.feedback;
        let mut n: usize = 0;
        let mut i: usize = 0;
        while i < self.feedback.len()
            invariant
                0 <= i <= self.feedback@.len(),
                n <= i,
                all == self@.feedback,
                n == feedback_on(all.take(i as int), fingerprint@),
            decreases self.feedback.len() - i,
        {
            proof {
                assert(all.take(i + 1).drop_last() =~= all.take(i as int));
                assert(all.take(i + 1).last() == self.feedback@[i as int]@);
            }
            if text::same(self.feedback[i].fingerprint.as_str(), fingerprint) {
                n += 1;
            }
            i += 1;
        }
        proof {
            assert(all.take(all.len() as int) =~= all);
        }
        n
    }
}

/// The word for a false positive is that of no other verdict.
pub proof fn lemma_false_positive_label(verdict: FeedbackVerdict)
    ensures
        verdict.label() == FeedbackVerdict::FalsePositive.label() <==> verdict
            == FeedbackVerdict::FalsePositive,
{
    reveal_strlit("false_positive");
    reveal_strlit("true_positive");
    reveal_strlit("accepted_risk");
    reveal_strlit("fix_in_followup");
    reveal_strlit("doesnt_apply");
    assert("false_positive"@[0] == 'f' && "false_positive"@[1] == 'a');
    assert("true_positive"@[0] == 't');
    assert("accepted_risk"@[0] == 'a');
    assert("fix_in_followup"@[0] == 'f' && "fix_in_followup"@[1] == 'i');
    assert("doesnt_apply"@[0] == 'd');
}

/// Only a false positive counts against a rule: other feedback, and that the rule
/// does not apply in particular, leaves the count as it is.
pub proof fn only_false_positives_count(
    rows: Seq<FeedbackRowView>,
    finding_id: Seq<char>,
    lookup: LookupView,
    verdict: FeedbackVerdict,
    note: Option<Seq<char>>,
    created_at: Seq<char>,
    rule_id: Seq<char>,
)
    ensures
        reports_on(
            rows.push(feedback_row(finding_id, lookup, verdict, note, created_at)),
            rule_id,
        ) == reports_on(rows, rule_id) + if verdict == FeedbackVerdict::FalsePositive
            && lookup.rule_id_or_tool == rule_id {
            1nat
        } else {
            0
        },
{
    let row = feedback_row(finding_id, lookup, verdict, note, created_at);
    lemma_false_positive_label(verdict);
    assert(rows.push(row).drop_last() =~= rows);
    assert(rows.push(row).last() == row);
}

/// What a review adds is counted for its run, and for no other.
pub proof fn runs_accumulate(rows: Seq<FindingRowView>, report: ReviewReport, run_id: Seq<char>)
    ensures
        findings_of(rows + rows_of(report), run_id) == findings_of(rows, run_id) + if report.run_id@
            == run_id {
            report.findings@.len()
        } else {
            0
        },
{
    let added = rows_of(report);
    lemma_runs_accumulate(rows, added, report.run_id@, run_id);
}

proof fn lemma_runs_accumulate(
    rows: Seq<FindingRowView>,
    added: Seq<FindingRowView>,
    run: Seq<char>,
    run_id: Seq<char>,
)
    requires
        forall|i: int| 0 <= i < added.len() ==> (#[trigger] added[i]).run_id == run,
    ensures
        findings_of(rows + added, run_id) == findings_of(rows, run_id) + if run == run_id {
            added.len()
        } else {
            0
        },
    decreases added.len(),
{
    if added.len() == 0 {
        assert(rows + added =~= rows);
    } else {
        let rest = added.drop_last();
        lemma_runs_accumulate(rows, rest, run, run_id);
        assert((rows + added).drop_last() =~= rows + rest);
        assert((rows + added).last() == added[added.len() - 1]);
    }
}

/// The finding that is found is one of those that were asked for, and none of
/// them is more recent.
pub proof fn nothing_is_more_recent(rows: Seq<FindingRowView>, id: Option<Seq<char>>, i: int)
    requires
        0 <= i < rows.len(),
        id matches Some(wanted) ==> rows[i].finding_id == wanted,
    ensures
        latest_of(rows, id) matches Some(row) && {
            &&& rows.contains(row)
            &&& id matches Some(wanted) ==> row.finding_id == wanted
            &&& !text::precedes(row.created_at, rows[i].created_at)
        },
    decreases rows.len(),
{
    let rest = rows.drop_last();
    lemma_latest_fits(rows, id);
    if i < rows.len() - 1 {
        nothing_is_more_recent(rest, id, i);
        let best = latest_of(rest, id)->Some_0;
        if text::precedes(best.created_at, rows.last().created_at) && text::precedes(
            rows.last().created_at,
            rows[i].created_at,
        ) {
            text::lemma_precedes_transitive(
                best.created_at,
                rows.last().created_at,
                rows[i].created_at,
            );
        }
    } else {
        text::lemma_precedes_strict(rows.last().created_at, rows.last().created_at);
    }
}

proof fn lemma_latest_fits(rows: Seq<FindingRowView>, id: Option<Seq<char>>)
    ensures
        latest_of(rows, id) matches Some(row) ==> {
            &&& rows.contains(row)
            &&& id matches Some(wanted) ==> row.finding_id == wanted
        },
    decreases rows.len(),
{
    if rows.len() > 0 {
        let rest = rows.drop_last();
        lemma_latest_fits(rest, id);
        assert(rows.contains(rows[rows.len() - 1]));
        if latest_of(rest, id) is Some {
            let best = latest_of(rest, id)->Some_0;
            let k = choose|k: int| 0 <= k < rest.len() && rest[k] == best;
            assert(rows[k] == best);
        }
    }
}

/// A verdict on a finding that comes of a piece of feedback.
pub open spec fn comes_of(
    verdict: KnownVerdictView,
    finding: FindingRowView,
    feedback: FeedbackRowView,
) -> bool {
    feedback.fingerprint == finding.fingerprint && verdict == (KnownVerdictView {
        title: finding.title,
        message: finding.message,
        fingerprint: finding.fingerprint,
        verdict: feedback.verdict,
    })
}

proof fn lemma_verdicts_on(
    finding: FindingRowView,
    feedback: Seq<FeedbackRowView>,
    verdict: KnownVerdictView,
)
    ensures
        verdicts_on(finding, feedback).contains(verdict) <==> exists|j: int|
            0 <= j < feedback.len() && comes_of(verdict, finding, #[trigger] feedback[j]),
    decreases feedback.len(),
{
    if feedback.len() > 0 {
        let rest = feedback.drop_last();
        lemma_verdicts_on(finding, rest, verdict);
        let before = verdicts_on(finding, rest);
        let last = feedback[feedback.len() - 1];
        let made = KnownVerdictView {
            title: finding.title,
            message: finding.message,
            fingerprint: finding.fingerprint,
            verdict: last.verdict,
        };
        if last.fingerprint == finding.fingerprint {
            text::lemma_push_contains(before, made, verdict);
            assert(comes_of(made, finding, last));
        }
        assert forall|j: int| 0 <= j < rest.len() implies rest[j] == #[trigger] feedback[j] by {}
        if before.contains(verdict) {
            let j = choose|j: int|
                0 <= j < rest.len() && comes_of(verdict, finding, #[trigger] rest[j]);
            assert(comes_of(verdict, finding, feedback[j]));
        }
        if exists|j: int|
            0 <= j < feedback.len() && comes_of(verdict, finding, #[trigger] feedback[j]) {
            let j = choose|j: int|
                0 <= j < feedback.len() && comes_of(verdict, finding, #[trigger] feedback[j]);
            if j < rest.len() {
                assert(comes_of(verdict, finding, rest[j]));
            }
        }
    } else {
        assert(verdicts_on(finding, feedback).len() == 0);
    }
}

/// What is known of a run is what was said of its findings, and nothing else.
pub proof fn verdicts_join_findings_and_feedback(
    findings: Seq<FindingRowView>,
    feedback: Seq<FeedbackRowView>,
    run_id: Seq<char>,
    verdict: KnownVerdictView,
)
    ensures
        verdicts_in(findings, feedback, run_id).contains(verdict) <==> exists|i: int, j: int|
            0 <= i < findings.len() && 0 <= j < feedback.len() && findings[i].run_id == run_id
                && #[trigger] comes_of(verdict, findings[i], feedback[j]),
    decreases findings.len(),
{
    if findings.len() > 0 {
        let rest = findings.drop_last();
        verdicts_join_findings_and_feedback(rest, feedback, run_id, verdict);
        let last = findings[findings.len() - 1];
        let before = verdicts_in(rest, feedback, run_id);
        if last.run_id == run_id {
            lemma_verdicts_on(last, feedback, verdict);
            text::lemma_joined_contains(before, verdicts_on(last, feedback), verdict);
            if verdicts_on(last, feedback).contains(verdict) {
                let j = choose|j: int|
                    0 <= j < feedback.len() && comes_of(verdict, last, #[trigger] feedback[j]);
                assert(comes_of(verdict, findings[findings.len() - 1], feedback[j]));
            }
        }
        if before.contains(verdict) {
            let (i, j) = choose|i: int, j: int|
                0 <= i < rest.len() && 0 <= j < feedback.len() && rest[i].run_id == run_id
                    && #[trigger] comes_of(verdict, rest[i], feedback[j]);
            assert(comes_of(verdict, findings[i], feedback[j]));
        }
        if exists|i: int, j: int|
            0 <= i < findings.len() && 0 <= j < feedback.len() && findings[i].run_id == run_id
                && #[trigger] comes_of(verdict, findings[i], feedback[j]) {
            let (i, j) = choose|i: int, j: int|
                0 <= i < findings.len() && 0 <= j < feedback.len() && findings[i].run_id == run_id
                    && #[trigger] comes_of(verdict, findings[i], feedback[j]);
            if i < rest.len() {
                assert(comes_of(verdict, rest[i], feedback[j]));
            } else {
                assert(comes_of(verdict, last, feedback[j]));
            }
        }
    } else {
        assert(verdicts_in(findings, feedback, run_id).len() == 0);
    }
}

/// Every report that is handed to skill evolution says why.
pub proof fn reports_have_reasons(rows: Seq<FeedbackRowView>, i: int)
    requires
        0 <= i < noted(rows).len(),
    ensures
        noted(rows)[i].note.len() > 0,
    decreases rows.len(),
{
    if rows.len() > 0 && i < noted(rows.drop_last()).len() {
        reports_have_reasons(rows.drop_last(), i);
    }
}

/// What a run leaves of a finding, and what is looked up and mined of that: the
/// finding's own words; its rule, or its tool where no rule found it.
pub proof fn rows_keep_their_finding(finding: Finding, run_id: Seq<char>, created_at: Seq<char>)
    ensures
        ({
            let row = row_of(finding, run_id, created_at);
            let maker = match finding.source.rule_id {
                Some(rule) => rule@,
                None => finding.source.tool@,
            };
            &&& row.finding_id == finding.id@ && row.fingerprint == finding.fingerprint@
            &&& row.run_id == run_id && row.created_at == created_at
            &&& finding.severity is Blocker ==> row.severity == "blocker"@
            &&& finding.severity is High ==> row.severity == "high"@
            &&& finding.severity is Medium ==> row.severity == "medium"@
            &&& finding.severity is Low ==> row.severity == "low"@
            &&& finding.severity is Info ==> row.severity == "info"@
            &&& finding.source.kind == FindingSourceKind::Agent ==> row.source_kind == "agent"@
            &&& finding.source.kind == FindingSourceKind::Analyzer ==> row.source_kind
                == "analyzer"@
            &&& row.lookup().fingerprint == finding.fingerprint@ && row.lookup().category
                == finding.category@ && row.lookup().title == finding.title@
                && row.lookup().message == finding.message@ && row.lookup().rule_id_or_tool
                == maker && row.lookup().severity == row.severity
            &&& row.mined().fingerprint == finding.fingerprint@ && row.mined().category
                == finding.category@ && row.mined().title == finding.title@ && row.mined().message
                == finding.message@ && row.mined().rule_id_or_aspect == maker
                && row.mined().run_id == run_id
        }),
{
}

/// A report leaves a row for each of its findings, in order, under its own run.
pub proof fn reports_leave_their_findings(report: ReviewReport, i: int)
    requires
        0 <= i < report.findings@.len(),
    ensures
        rows_of(report).len() == report.findings@.len(),
        rows_of(report)[i].finding_id == report.findings@[i].id@,
        rows_of(report)[i].run_id == report.run_id@,
        rows_of(report)[i].created_at == report.created_at@,
{
}

/// Of rows of one time the first counts as the latest.
pub proof fn the_first_of_the_latest_counts(
    rows: Seq<FindingRowView>,
    id: Option<Seq<char>>,
    row: FindingRowView,
)
    requires
        latest_of(rows, id) matches Some(best) && !text::precedes(best.created_at, row.created_at),
    ensures
        latest_of(rows.push(row), id) == latest_of(rows, id),
{
    assert(rows.push(row).drop_last() =~= rows);
}

/// A row that is later than what is known, and is asked for, becomes the latest.
pub proof fn a_later_row_is_the_latest(
    rows: Seq<FindingRowView>,
    id: Option<Seq<char>>,
    row: FindingRowView,
)
    requires
        id matches Some(wanted) ==> row.finding_id == wanted,
        latest_of(rows, id) matches Some(best) ==> text::precedes(best.created_at, row.created_at),
    ensures
        latest_of(rows.push(row), id) == Some(row),
{
    assert(rows.push(row).drop_last() =~= rows);
}

/// The false positives with a reason are those of that verdict with a note that is
/// not empty, in order, in their own words.
pub proof fn reasons_are_those_of_false_positives(rows: Seq<FeedbackRowView>)
    ensures
        noted(rows) == rows.filter(
            |r: FeedbackRowView|
                r.verdict == "false_positive"@ && (r.note matches Some(n) && n.len() > 0),
        ).map_values(
            |r: FeedbackRowView|
                FpRowView {
                    category: r.category,
                    rule_id_or_aspect: r.rule_id_or_aspect,
                    title: r.title,
                    message: r.message,
                    note: r.note->0,
                },
        ),
    decreases rows.len(),
{
    reveal(Seq::filter);
    let wanted = |r: FeedbackRowView|
        r.verdict == "false_positive"@ && (r.note matches Some(n) && n.len() > 0);
    let told = |r: FeedbackRowView|
        FpRowView {
            category: r.category,
            rule_id_or_aspect: r.rule_id_or_aspect,
            title: r.title,
            message: r.message,
            note: r.note->0,
        };
    if rows.len() == 0 {
        assert(noted(rows) =~= rows.filter(wanted).map_values(told));
    } else {
        let rest = rows.drop_last();
        reasons_are_those_of_false_positives(rest);
        if wanted(rows.last()) {
            assert(rows.filter(wanted).map_values(told) =~= rest.filter(wanted).map_values(
                told,
            ).push(told(rows.last())));
        }
    }
}

/// What is mined is what agents found, in order.
pub proof fn what_agents_found_is_mined(rows: Seq<FindingRowView>)
    ensures
        mined_from(rows).len() == rows.filter(
            |r: FindingRowView| r.source_kind == "agent"@,
        ).len(),
        forall|i: int|
            0 <= i < mined_from(rows).len() ==> {
                let r = rows.filter(|r: FindingRowView| r.source_kind == "agent"@)[i];
                &&& (#[trigger] mined_from(rows)[i]).fingerprint == r.fingerprint
                &&& mined_from(rows)[i].title == r.title
                &&& mined_from(rows)[i].message == r.message
                &&& mined_from(rows)[i].category == r.category
                &&& mined_from(rows)[i].run_id == r.run_id
            },
    decreases rows.len(),
{
    reveal(Seq::filter);
    let wanted = |r: FindingRowView| r.source_kind == "agent"@;
    if rows.len() > 0 {
        let rest = rows.drop_last();
        what_agents_found_is_mined(rest);
        assert forall|i: int| 0 <= i < mined_from(rows).len() implies {
            let r = rows.filter(wanted)[i];
            &&& (#[trigger] mined_from(rows)[i]).fingerprint == r.fingerprint
            &&& mined_from(rows)[i].title == r.title
            &&& mined_from(rows)[i].message == r.message
            &&& mined_from(rows)[i].category == r.category
            &&& mined_from(rows)[i].run_id == r.run_id
        } by {
            if i < mined_from(rest).len() {
                assert(mined_from(rows)[i] == mined_from(rest)[i]);
            }
        }
    }
}

/// The runs with verdicts are those with a finding that feedback speaks of; and
/// the counts of the store count what they say.
pub proof fn counts_count_their_rows(
    findings: Seq<FindingRowView>,
    feedback: Seq<FeedbackRowView>,
    name: Seq<char>,
)
    ensures
        judged_runs(findings, feedback) == findings.filter(
            |f: FindingRowView|
                exists|j: int|
                    0 <= j < feedback.len() && (#[trigger] feedback[j]).fingerprint
                        == f.fingerprint,
        ).map_values(|f: FindingRowView| f.run_id),
        findings_of(findings, name) == findings.filter(
            |f: FindingRowView| f.run_id == name,
        ).len(),
        feedback_on(feedback, name) == feedback.filter(
            |f: FeedbackRowView| f.fingerprint == name,
        ).len(),
        reports_on(feedback, name) == feedback.filter(
            |f: FeedbackRowView| f.rule_id_or_aspect == name && f.verdict == "false_positive"@,
        ).len(),
    decreases findings.len() + feedback.len(),
{
    reveal(Seq::filter);
    let spoken = |f: FindingRowView|
        exists|j: int|
            0 <= j < feedback.len() && (#[trigger] feedback[j]).fingerprint == f.fingerprint;
    let run = |f: FindingRowView| f.run_id;
    if findings.len() > 0 {
        let rest = findings.drop_last();
        counts_count_their_rows(rest, feedback, name);
        if spoken(findings.last()) {
            assert(findings.filter(spoken).map_values(run) =~= rest.filter(spoken).map_values(
                run,
            ).push(findings.last().run_id));
        }
    } else {
        assert(judged_runs(findings, feedback) =~= findings.filter(spoken).map_values(run));
        if feedback.len() > 0 {
            counts_count_their_rows(findings, feedback.drop_last(), name);
        }
    }
}

/// Feedback is written down under what was looked up, in the words of its verdict.
pub proof fn feedback_is_written_under_its_finding(
    finding_id: Seq<char>,
    lookup: LookupView,
    verdict: FeedbackVerdict,
    note: Option<Seq<char>>,
    created_at: Seq<char>,
)
    ensures
        ({
            let row = feedback_row(finding_id, lookup, verdict, note, created_at);
            &&& row.finding_id == finding_id && row.fingerprint == lookup.fingerprint
            &&& row.category == lookup.category && row.rule_id_or_aspect == lookup.rule_id_or_tool
            &&& row.severity == lookup.severity && row.title == lookup.title && row.message
                == lookup.message
            &&& row.note == note && row.created_at == created_at
            &&& verdict == FeedbackVerdict::FalsePositive ==> row.verdict == "false_positive"@
            &&& verdict == FeedbackVerdict::TruePositive ==> row.verdict == "true_positive"@
        }),
{
}

} // verus!
