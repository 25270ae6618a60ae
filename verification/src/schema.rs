//! The data that reviews are made of: tiers, findings, skills, costs and
//! configuration.

use vstd::hash_map::StringHashMap;
use vstd::prelude::*;

use crate::text;

verus! {

/// How deep a review goes.
#[derive(Debug, Clone, Copy, PartialEq, Eq, Structural)]
pub enum Tier {
    Quick,
    Standard,
    Deep,
}

impl Tier {
    /// The tier as it is written in options and prompts.
    pub open spec fn label(self) -> Seq<char> {
        match self {
            Tier::Quick => "quick"@,
            Tier::Standard => "standard"@,
            Tier::Deep => "deep"@,
        }
    }

    /// The tier as it is written in options and prompts.
    pub fn as_str(self) -> (s: &'static str)
        ensures
            s@ == self.label(),
    {
        match self {
            Tier::Quick => "quick",
            Tier::Standard => "standard",
            Tier::Deep => "deep",
        }
    }
}

/// How much a skill costs to run.
#[derive(Debug, Clone, Copy, PartialEq, Eq, Structural)]
pub enum CostClass {
    Quick,
    Moderate,
    Expensive,
}

/// Which of the configured models runs an agent.
#[derive(Debug, Clone, Copy, PartialEq, Eq, Structural)]
pub enum ModelAlias {
    Cheap,
    Standard,
    Deep,
}

/// What summons a skill.
#[derive(Debug, Clone)]
pub struct SkillTriggers {
    pub globs: Vec<String>,
    pub signals: Vec<String>,
    pub always: bool,
}

/// A review skill.
#[derive(Debug, Clone)]
pub struct SkillManifest {
    pub id: String,
    pub title: String,
    pub version: String,
    pub categories: Vec<String>,
    pub languages: Vec<String>,
    pub triggers: SkillTriggers,
    pub cost_class: CostClass,
    pub output_contract: String,
}

/// What one triage signal is worth. Points are counted in millionths.
#[derive(Debug, Clone, Copy)]
pub struct SignalWeight {
    pub per_line: Option<i64>,
    pub per_file: Option<i64>,
    pub per_branch: Option<i64>,
    pub per_finding_per_kloc: Option<i64>,
    pub points: Option<i64>,
    pub cap: Option<i64>,
}

/// The weights of the triage signals, by name.
pub struct SignalWeights {
    entries: StringHashMap<SignalWeight>,
}

impl View for SignalWeights {
    type V = Map<Seq<char>, SignalWeight>;

    closed spec fn view(&self) -> Map<Seq<char>, SignalWeight> {
        self.entries@
    }
}

impl SignalWeights {
    /// No weights.
    pub fn new() -> (w: Self)
        ensures
            w@ == Map::<Seq<char>, SignalWeight>::empty(),
    {
        SignalWeights { entries: StringHashMap::new() }
    }

    /// Sets the weight of a signal, over any earlier one.
    pub fn insert(&mut self, signal: String, weight: SignalWeight)
        ensures
            final(self)@ == old(self)@.insert(signal@, weight),
    {
        self.entries.insert(signal, weight);
    }

    /// The weight of a signal.
    pub fn get(&self, signal: &str) -> (weight: Option<SignalWeight>)
        ensures
            weight == weight_of(self@, signal@),
    {
        match self.entries.get(signal) {
            Some(weight) => Some(*weight),
            None => None,
        }
    }
}

/// The weight of a signal, if it has one.
pub open spec fn weight_of(weights: Map<Seq<char>, SignalWeight>, signal: Seq<char>) -> Option<
    SignalWeight,
> {
    if weights.contains_key(signal) {
        Some(weights[signal])
    } else {
        None
    }
}

/// The scores, in millionths of a point, up to which a review stays quick or
/// standard.
#[derive(Debug, Clone, Copy)]
pub struct TierScores {
    pub quick: Option<i128>,
    pub standard: Option<i128>,
}

/// What triage goes by.
pub struct TriageConfig {
    pub signals: SignalWeights,
    pub tiers: TierScores,
}

/// What one agent may use.
#[derive(Debug, Clone, Copy)]
pub struct AgentBudget {
    pub model: ModelAlias,
    pub max_turns: u32,
}

/// What a review of one tier may use.
#[derive(Debug, Clone, Copy)]
pub struct TierBudget {
    pub max_agents: u32,
    pub total_token_cap: u64,
    pub wall_clock_sec: u64,
    pub per_agent: AgentBudget,
}

/// The budgets of the three tiers.
#[derive(Debug, Clone, Copy)]
pub struct TierBudgets {
    pub quick: TierBudget,
    pub standard: TierBudget,
    pub deep: TierBudget,
}

/// The models behind the aliases.
#[derive(Debug, Clone)]
pub struct ModelNames {
    pub cheap: String,
    pub standard: String,
    pub deep: String,
}

/// What reviews may use.
#[derive(Debug, Clone)]
pub struct BudgetConfig {
    pub tiers: TierBudgets,
    pub models: ModelNames,
}

/// The configuration of a repository.
pub struct AutoreviewConfig {
    pub triage: TriageConfig,
    pub budgets: BudgetConfig,
}

/// What one triage signal contributed, in millionths of a point.
#[derive(Debug, Clone)]
pub struct TriageSignalScore {
    pub signal: String,
    pub points: i128,
    pub detail: Option<String>,
}

/// What a `TriageSignalScore` says.
pub struct SignalScoreView {
    pub signal: Seq<char>,
    pub points: i128,
    pub detail: Option<Seq<char>>,
}

impl View for TriageSignalScore {
    type V = SignalScoreView;

    open spec fn view(&self) -> SignalScoreView {
        SignalScoreView {
            signal: self.signal@,
            points: self.points,
            detail: text::optional(self.detail),
        }
    }
}

/// A skill that a review runs.
#[derive(Debug, Clone)]
pub struct SpecialistPlanEntry {
    pub aspect: String,
    pub triggered_by: Vec<String>,
    pub model: String,
    pub max_turns: u32,
}

/// What a `SpecialistPlanEntry` says.
pub struct SpecialistView {
    pub aspect: Seq<char>,
    pub triggered_by: Seq<Seq<char>>,
    pub model: Seq<char>,
    pub max_turns: u32,
}

impl View for SpecialistPlanEntry {
    type V = SpecialistView;

    open spec fn view(&self) -> SpecialistView {
        SpecialistView {
            aspect: self.aspect@,
            triggered_by: text::views(self.triggered_by@),
            model: self.model@,
            max_turns: self.max_turns,
        }
    }
}

/// What a planned review may use.
#[derive(Debug, Clone, Copy, PartialEq, Eq, Structural)]
pub struct PlanBudgets {
    pub max_agents: u32,
    pub total_token_cap: u64,
    pub wall_clock_sec: u64,
}

/// A planned review.
#[derive(Debug, Clone)]
pub struct ReviewPlan {
    pub tier: Tier,
    /// In millionths of a point.
    pub score: i128,
    pub signals: Vec<TriageSignalScore>,
    pub specialists: Vec<SpecialistPlanEntry>,
    pub budgets: PlanBudgets,
    pub overrides: Vec<String>,
}

/// What a `ReviewPlan` says.
pub struct ReviewPlanView {
    pub tier: Tier,
    pub score: i128,
    pub signals: Seq<SignalScoreView>,
    pub specialists: Seq<SpecialistView>,
    pub budgets: PlanBudgets,
    pub overrides: Seq<Seq<char>>,
}

impl View for ReviewPlan {
    type V = ReviewPlanView;

    open spec fn view(&self) -> ReviewPlanView {
        ReviewPlanView {
            tier: self.tier,
            score: self.score,
            signals: text::views(self.signals@),
            specialists: text::views(self.specialists@),
            budgets: self.budgets,
            overrides: text::views(self.overrides@),
        }
    }
}

/// How bad a finding is.
#[derive(Debug, Clone, Copy, PartialEq, Eq, Structural)]
pub enum Severity {
    Blocker,
    High,
    Medium,
    Low,
    Info,
}

impl Severity {
    /// The severity in words, with a capital.
    pub open spec fn title(self) -> Seq<char> {
        match self {
            Severity::Blocker => "Blocker"@,
            Severity::High => "High"@,
            Severity::Medium => "Medium"@,
            Severity::Low => "Low"@,
            Severity::Info => "Info"@,
        }
    }

    /// The severity as it is recorded.
    pub open spec fn label(self) -> Seq<char> {
        match self {
            Severity::Blocker => "blocker"@,
            Severity::High => "high"@,
            Severity::Medium => "medium"@,
            Severity::Low => "low"@,
            Severity::Info => "info"@,
        }
    }

    /// The severity in words, with a capital.
    pub fn as_title(self) -> (s: &'static str)
        ensures
            s@ == self.title(),
    {
        match self {
            Severity::Blocker => "Blocker",
            Severity::High => "High",
            Severity::Medium => "Medium",
            Severity::Low => "Low",
            Severity::Info => "Info",
        }
    }

    /// The severity as it is recorded.
    pub fn as_str(self) -> (s: &'static str)
        ensures
            s@ == self.label(),
    {
        match self {
            Severity::Blocker => "blocker",
            Severity::High => "high",
            Severity::Medium => "medium",
            Severity::Low => "low",
            Severity::Info => "info",
        }
    }
}

/// Who made a finding.
#[derive(Debug, Clone, Copy, PartialEq, Eq, Structural)]
pub enum FindingSourceKind {
    Agent,
    Analyzer,
}

impl FindingSourceKind {
    /// The kind as it is recorded.
    pub open spec fn label(self) -> Seq<char> {
        match self {
            FindingSourceKind::Agent => "agent"@,
            FindingSourceKind::Analyzer => "analyzer"@,
        }
    }

    /// The kind as it is recorded.
    pub fn as_str(self) -> (s: &'static str)
        ensures
            s@ == self.label(),
    {
        match self {
            FindingSourceKind::Agent => "agent",
            FindingSourceKind::Analyzer => "analyzer",
        }
    }
}

/// Where a finding comes from.
#[derive(Debug, Clone)]
pub struct FindingSource {
    pub kind: FindingSourceKind,
    pub tool: String,
    pub rule_id: Option<String>,
    pub aspect: Option<String>,
}

/// What a finding is about.
#[derive(Debug, Clone)]
pub struct Location {
    pub path: String,
    pub start_line: u32,
    pub snippet: String,
}

/// What a review found.
#[derive(Debug, Clone)]
pub struct Finding {
    pub id: String,
    /// What stays the same when the finding is made again.
    pub fingerprint: String,
    pub source: FindingSource,
    pub category: String,
    pub severity: Severity,
    pub title: String,
    pub message: String,
    pub location: Location,
}

/// Why a finding is suppressed.
#[derive(Debug, Clone, Copy, PartialEq, Eq, Structural)]
pub enum SuppressedReason {
    Refuted,
}

/// A finding that is not reported.
#[derive(Debug, Clone)]
pub struct SuppressedFinding {
    pub finding: Finding,
    pub reason: SuppressedReason,
}

/// What a change is for, and what it has to do.
#[derive(Debug, Clone)]
pub struct AcceptanceSpec {
    pub title: String,
    pub intent: String,
    pub criteria: Vec<String>,
}

/// What an `AcceptanceSpec` says.
pub struct AcceptanceView {
    pub title: Seq<char>,
    pub intent: Seq<char>,
    pub criteria: Seq<Seq<char>>,
}

impl View for AcceptanceSpec {
    type V = AcceptanceView;

    open spec fn view(&self) -> AcceptanceView {
        AcceptanceView {
            title: self.title@,
            intent: self.intent@,
            criteria: text::views(self.criteria@),
        }
    }
}

/// Whether a change meets a criterion.
#[derive(Debug, Clone, Copy, PartialEq, Eq, Structural)]
pub enum CriterionVerdict {
    Satisfied,
    NotSatisfied,
    Uncertain,
}

/// Whether a change meets a criterion, and what shows it.
#[derive(Debug, Clone)]
pub struct CriterionResult {
    pub criterion: String,
    pub verdict: CriterionVerdict,
    pub evidence: String,
}

/// What a `CriterionResult` says.
pub struct CriterionView {
    pub criterion: Seq<char>,
    pub verdict: CriterionVerdict,
    pub evidence: Seq<char>,
}

impl View for CriterionResult {
    type V = CriterionView;

    open spec fn view(&self) -> CriterionView {
        CriterionView {
            criterion: self.criterion@,
            verdict: self.verdict,
            evidence: self.evidence@,
        }
    }
}

/// What a review found, and when.
#[derive(Debug, Clone)]
pub struct ReviewReport {
    pub run_id: String,
    pub created_at: String,
    pub findings: Vec<Finding>,
}

/// What a human says of a finding.
#[derive(Debug, Clone, Copy, PartialEq, Eq, Structural)]
pub enum FeedbackVerdict {
    /// The finding is wrong.
    FalsePositive,
    /// The finding is right.
    TruePositive,
    /// The finding is right, and the risk is taken.
    AcceptedRisk,
    /// The finding is right, and dealt with later.
    FixInFollowup,
    /// The rule is right, but does not apply here.
    DoesntApply,
}

impl FeedbackVerdict {
    /// The verdict as it is recorded.
    pub open spec fn label(self) -> Seq<char> {
        match self {
            FeedbackVerdict::FalsePositive => "false_positive"@,
            FeedbackVerdict::TruePositive => "true_positive"@,
            FeedbackVerdict::AcceptedRisk => "accepted_risk"@,
            FeedbackVerdict::FixInFollowup => "fix_in_followup"@,
            FeedbackVerdict::DoesntApply => "doesnt_apply"@,
        }
    }

    /// The verdict as it is recorded.
    pub fn as_str(self) -> (s: &'static str)
        ensures
            s@ == self.label(),
    {
        match self {
            FeedbackVerdict::FalsePositive => "false_positive",
            FeedbackVerdict::TruePositive => "true_positive",
            FeedbackVerdict::AcceptedRisk => "accepted_risk",
            FeedbackVerdict::FixInFollowup => "fix_in_followup",
            FeedbackVerdict::DoesntApply => "doesnt_apply",
        }
    }
}

/// What a stage of a review cost.
#[derive(Debug, Clone, Copy, PartialEq, Eq, Structural)]
pub struct CostEntry {
    pub input_tokens: u64,
    pub output_tokens: u64,
    /// In millionths of a dollar, where the backend reports it.
    pub usd: Option<u64>,
    pub wall_ms: u64,
}

/// How the event log is shared.
#[derive(Debug, Clone, Copy, PartialEq, Eq, Structural)]
pub enum SyncMode {
    Off,
    Git,
}

/// How, where and on which branch the event log is shared.
#[derive(Debug, Clone)]
pub struct StorageSyncConfig {
    pub mode: SyncMode,
    /// A URL, a path or the name of a remote.
    pub location: Option<String>,
    pub branch: String,
}

} // verus!
