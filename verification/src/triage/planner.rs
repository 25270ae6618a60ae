//! From what is known of a diff to a planned review: configured weights turn
//! signals into a score, the score picks a tier, and the tier and the skills'
//! triggers pick the specialists.

use vstd::prelude::*;

use crate::globs;
use crate::schema;
use crate::schema::{
    AutoreviewConfig, CostClass, ModelAlias, PlanBudgets, ReviewPlan, ReviewPlanView,
    SignalScoreView, SignalWeight, SkillManifest, SpecialistPlanEntry, SpecialistView, Tier,
    TierBudget, TriageSignalScore,
};
use crate::text;
use crate::triage::signals::{DiffFacts, DiffFactsView, FileChange, FileChangeView};

verus! {

/// The lines that the files add and delete.
pub open spec fn lines_in(files: Seq<FileChangeView>) -> nat
    decreases files.len(),
{
    if files.len() == 0 {
        0
    } else {
        lines_in(files.drop_last()) + files.last().additions as nat + files.last().deletions as nat
    }
}

/// A count, or the largest `u64` where it is larger.
pub open spec fn at_most_u64(n: nat) -> u64 {
    if n <= u64::MAX {
        n as u64
    } else {
        u64::MAX
    }
}

fn lines_changed(files: &Vec<FileChange>) -> (lines: u64)
    ensures
        lines == at_most_u64(lines_in(text::views(files@))),
{
    let ghost all = text::views(files@);
    let mut lines: u64 = 0;
    let mut i: usize = 0;
    while i < files.len()
        invariant
            0 <= i <= files@.len(),
            all == text::views(files@),
            lines == at_most_u64(lines_in(all.take(i as int))),
        decreases files.len() - i,
    {
        proof {
            assert(all.take(i + 1).drop_last() =~= all.take(i as int));
            assert(all.take(i + 1).last() == files@[i as int]@);
        }
        let more: u64 = files[i].additions as u64 + files[i].deletions as u64;
        lines = match lines.checked_add(more) {
            Some(sum) => sum,
            None => u64::MAX,
        };
        i += 1;
    }
    proof {
        assert(all.take(all.len() as int) =~= all);
    }
    lines
}

/// A value, or the cap where the value is larger.
pub open spec fn capped(value: int, cap: Option<i64>) -> int {
    match cap {
        Some(c) => if value > c {
            c as int
        } else {
            value
        },
        None => value,
    }
}

fn clamp(value: i128, cap: Option<i64>) -> (r: i128)
    ensures
        r == capped(value as int, cap),
{
    match cap {
        Some(c) => if value > c as i128 {
            c as i128
        } else {
            value
        },
        None => value,
    }
}

/// A value, or the largest `i128` where it is larger.
pub open spec fn at_most_i128(value: int) -> int {
    if value > i128::MAX {
        i128::MAX as int
    } else {
        value
    }
}

/// What a count is worth at a rate, up to a cap.
pub open spec fn worth(count: u64, rate: Option<i64>, cap: Option<i64>) -> int {
    match rate {
        Some(r) => capped(count * r, cap),
        None => 0,
    }
}

fn worth_of(count: u64, rate: Option<i64>, cap: Option<i64>) -> (points: i128)
    ensures
        points == worth(count, rate, cap),
{
    match rate {
        Some(r) => {
            proof {
                assert(i128::MIN <= count * r <= i128::MAX) by (nonlinear_arith)
                    requires
                        0 <= count <= u64::MAX,
                        i64::MIN <= r <= i64::MAX,
                ;
            }
            clamp(count as i128 * r as i128, cap)
        },
        None => 0,
    }
}

/// A share of a number in whole units, rounded up.
pub open spec fn rounded_up(n: int, per: int) -> int {
    if n % per == 0 {
        n / per
    } else {
        n / per + 1
    }
}

/// What findings are worth at a rate per finding in a thousand lines, up to a
/// cap. A diff counts as one line at least. Points that are no whole number of
/// millionths are rounded up: all that points are held against is whole, so this
/// decides as the exact share does.
pub open spec fn density_worth(findings: nat, lines: u64, rate: Option<i64>, cap: Option<i64>) -> int {
    match rate {
        Some(r) => if r <= 0 {
            0
        } else {
            capped(
                rounded_up(
                    at_most_i128(findings * 1000 * r),
                    if lines == 0 {
                        1
                    } else {
                        lines as int
                    },
                ),
                cap,
            )
        },
        None => 0,
    }
}

fn density_worth_of(findings: usize, lines: u64, rate: Option<i64>, cap: Option<i64>) -> (points: i128)
    ensures
        points == density_worth(findings as nat, lines, rate, cap),
{
    match rate {
        Some(r) => {
            if r <= 0 {
                return 0;
            }
            let thousands: i128 = findings as i128 * 1000;
            let product: i128 = match thousands.checked_mul(r as i128) {
                Some(p) => p,
                None => {
                    proof {
                        assert(thousands * r >= 0) by (nonlinear_arith)
                            requires
                                thousands >= 0,
                                r > 0,
                        ;
                    }
                    i128::MAX
                },
            };
            let per: i128 = if lines == 0 {
                1
            } else {
                lines as i128
            };
            proof {
                assert(product >= 0) by (nonlinear_arith)
                    requires
                        product == i128::MAX || product == thousands * r,
                        thousands >= 0,
                        r > 0,
                ;
            }
            let whole: i128 = product / per;
            if product % per == 0 {
                clamp(whole, cap)
            } else {
                proof {
                    assert(whole < i128::MAX) by (nonlinear_arith)
                        requires
                            0 <= product <= i128::MAX,
                            per >= 1,
                            whole == product / per,
                            product % per != 0,
                    ;
                }
                clamp(whole + 1, cap)
            }
        },
        None => 0,
    }
}

/// The rate and the cap of a signal, as far as it has them.
pub open spec fn weight_or_none(config: AutoreviewConfig, signal: Seq<char>) -> SignalWeight {
    match schema::weight_of(config.triage.signals@, signal) {
        Some(w) => w,
        None => no_weight(),
    }
}

/// The weight that is worth nothing.
pub open spec fn no_weight() -> SignalWeight {
    SignalWeight {
        per_line: None,
        per_file: None,
        per_branch: None,
        per_finding_per_kloc: None,
        points: None,
        cap: None,
    }
}

fn weight_for(config: &AutoreviewConfig, signal: &str) -> (weight: SignalWeight)
    ensures
        weight == weight_or_none(*config, signal@),
{
    match config.triage.signals.get(signal) {
        Some(w) => w,
        None => SignalWeight {
            per_line: None,
            per_file: None,
            per_branch: None,
            per_finding_per_kloc: None,
            points: None,
            cap: None,
        },
    }
}

/// The points of a signal that is either there or not.
pub open spec fn flag_worth(there: bool, weight: SignalWeight) -> int {
    match weight.points {
        Some(p) => if there {
            p as int
        } else {
            0
        },
        None => 0,
    }
}

fn flag_worth_of(there: bool, weight: SignalWeight) -> (points: i128)
    ensures
        points == flag_worth(there, weight),
{
    match weight.points {
        Some(p) => if there {
            p as i128
        } else {
            0
        },
        None => 0,
    }
}

/// The signal, if it has points.
pub open spec fn signal_with(signal: Seq<char>, points: int, detail: Option<Seq<char>>) -> Seq<
    SignalScoreView,
> {
    if points > 0 {
        seq![SignalScoreView { signal, points: points as i128, detail }]
    } else {
        Seq::empty()
    }
}

fn push_signal(
    signals: &mut Vec<TriageSignalScore>,
    signal: &str,
    points: i128,
    detail: Option<String>,
)
    ensures
        text::views(final(signals)@) == text::views(old(signals)@) + signal_with(
            signal@,
            points as int,
            text::optional(detail),
        ),
        positive(text::views(old(signals)@)) ==> positive(text::views(final(signals)@)),
{
    let ghost before = signals@;
    if points > 0 {
        let score = TriageSignalScore { signal: signal.to_owned(), points, detail };
        proof {
            text::lemma_views_push(before, score);
            assert(text::views(before).push(score@) =~= text::views(before) + signal_with(
                signal@,
                points as int,
                text::optional(detail),
            ));
        }
        signals.push(score);
    } else {
        proof {
            assert(text::views(before) =~= text::views(before) + Seq::<SignalScoreView>::empty());
        }
    }
}

/// Every signal has points.
pub open spec fn positive(signals: Seq<SignalScoreView>) -> bool {
    forall|i: int| 0 <= i < signals.len() ==> (#[trigger] signals[i]).points > 0
}

/// The signals of a diff that have points, given the number of findings of
/// deterministic analyzers.
pub open spec fn signals_of(facts: DiffFactsView, config: AutoreviewConfig, findings: nat) -> Seq<
    SignalScoreView,
> {
    let lines = at_most_u64(lines_in(facts.files));
    let by_lines = weight_or_none(config, "linesChanged"@);
    let by_files = weight_or_none(config, "filesChanged"@);
    let by_branches = weight_or_none(config, "complexityDelta"@);
    let by_density = weight_or_none(config, "analyzerDensity"@);
    signal_with("linesChanged"@, worth(lines, by_lines.per_line, by_lines.cap), None) + signal_with(
        "filesChanged"@,
        worth(at_most_u64(facts.files.len()), by_files.per_file, by_files.cap),
        None,
    ) + signal_with(
        "sensitivePathHit"@,
        flag_worth(facts.sensitive_path_hit, weight_or_none(config, "sensitivePathHit"@)),
        Some(text::joined(facts.sensitive_paths, ", "@)),
    ) + signal_with(
        "dependencyChange"@,
        flag_worth(facts.dependency_change, weight_or_none(config, "dependencyChange"@)),
        None,
    ) + signal_with(
        "ciOrInfraChange"@,
        flag_worth(facts.ci_or_infra_change, weight_or_none(config, "ciOrInfraChange"@)),
        None,
    ) + signal_with(
        "complexityDelta"@,
        worth(facts.added_branch_keywords as u64, by_branches.per_branch, by_branches.cap),
        None,
    ) + signal_with(
        "noTestsWithSource"@,
        flag_worth(facts.source_touched_without_tests, weight_or_none(config, "noTestsWithSource"@)),
        None,
    ) + (if findings > 0 {
        signal_with(
            "analyzerDensity"@,
            density_worth(findings, lines, by_density.per_finding_per_kloc, by_density.cap),
            Some(text::decimal_of(findings) + " finding(s)"@),
        )
    } else {
        Seq::empty()
    })
}

/// The points of the signals together.
pub open spec fn points_in(signals: Seq<SignalScoreView>) -> int
    decreases signals.len(),
{
    if signals.len() == 0 {
        0
    } else {
        points_in(signals.drop_last()) + signals.last().points
    }
}

/// The score of signals: their points together, counted no further than the
/// largest `i128`.
pub open spec fn score_of(signals: Seq<SignalScoreView>) -> int {
    at_most_i128(points_in(signals))
}

proof fn lemma_points_positive(signals: Seq<SignalScoreView>)
    requires
        positive(signals),
    ensures
        points_in(signals) >= 0,
    decreases signals.len(),
{
    if signals.len() > 0 {
        lemma_points_positive(signals.drop_last());
        assert(signals[signals.len() - 1].points > 0);
    }
}

fn total_points(signals: &Vec<TriageSignalScore>) -> (score: i128)
    requires
        positive(text::views(signals@)),
    ensures
        score == score_of(text::views(signals@)),
{
    let ghost all = text::views(signals@);
    let mut score: i128 = 0;
    let mut i: usize = 0;
    while i < signals.len()
        invariant
            0 <= i <= signals@.len(),
            all == text::views(signals@),
            positive(all),
            score == score_of(all.take(i as int)),
            score >= 0,
        decreases signals.len() - i,
    {
        proof {
            assert(all.take(i + 1).drop_last() =~= all.take(i as int));
            assert(all.take(i + 1).last() == signals@[i as int]@);
            assert(all[i as int].points > 0);
        }
        score = match score.checked_add(signals[i].points) {
            Some(sum) => sum,
            None => i128::MAX,
        };
        i += 1;
    }
    proof {
        assert(all.take(all.len() as int) =~= all);
    }
    score
}

/// The score of a diff and the signals that make it up, given the number of
/// findings of deterministic analyzers.
pub fn score_diff_facts(
    facts: &DiffFacts,
    config: &AutoreviewConfig,
    analyzer_finding_count: usize,
) -> (scored: (i128, Vec<TriageSignalScore>))
    ensures
        text::views(scored.1@) == signals_of(facts@, *config, analyzer_finding_count as nat),
        scored.0 == score_of(text::views(scored.1@)),
{
    let lines: u64 = lines_changed(&facts.files);
    let mut signals: Vec<TriageSignalScore> = Vec::new();
    proof {
        assert(text::views(signals@) =~= Seq::empty());
    }
    let by_lines: SignalWeight = weight_for(config, "linesChanged");
    push_signal(
        &mut signals,
        "linesChanged",
        worth_of(lines, by_lines.per_line, by_lines.cap),
        None,
    );
    let by_files: SignalWeight = weight_for(config, "filesChanged");
    push_signal(
        &mut signals,
        "filesChanged",
        worth_of(facts.files.len() as u64, by_files.per_file, by_files.cap),
        None,
    );
    push_signal(
        &mut signals,
        "sensitivePathHit",
        flag_worth_of(facts.sensitive_path_hit, weight_for(config, "sensitivePathHit")),
        Some(text::join(&facts.sensitive_paths, ", ")),
    );
    push_signal(
        &mut signals,
        "dependencyChange",
        flag_worth_of(facts.dependency_change, weight_for(config, "dependencyChange")),
        None,
    );
    push_signal(
        &mut signals,
        "ciOrInfraChange",
        flag_worth_of(facts.ci_or_infra_change, weight_for(config, "ciOrInfraChange")),
        None,
    );
    let by_branches: SignalWeight = weight_for(config, "complexityDelta");
    push_signal(
        &mut signals,
        "complexityDelta",
        worth_of(facts.added_branch_keywords as u64, by_branches.per_branch, by_branches.cap),
        None,
    );
    push_signal(
        &mut signals,
        "noTestsWithSource",
        flag_worth_of(facts.source_touched_without_tests, weight_for(config, "noTestsWithSource")),
        None,
    );
    let ghost before = text::views(signals@);
    if analyzer_finding_count > 0 {
        let by_density: SignalWeight = weight_for(config, "analyzerDensity");
        let detail: String = text::decimal(analyzer_finding_count as u64).concat(" finding(s)");
        push_signal(
            &mut signals,
            "analyzerDensity",
            density_worth_of(
                analyzer_finding_count,
                lines,
                by_density.per_finding_per_kloc,
                by_density.cap,
            ),
            Some(detail),
        );
    } else {
        proof {
            assert(before =~= before + Seq::<SignalScoreView>::empty());
        }
    }
    proof {
        assert(text::views(signals@) =~= signals_of(
            facts@,
            *config,
            analyzer_finding_count as nat,
        ));
    }
    let score: i128 = total_points(&signals);
    (score, signals)
}

/// The tier of a score: the first one whose highest score it does not exceed,
/// and deep past both.
pub open spec fn tier_of(score: int, config: AutoreviewConfig) -> Tier {
    if config.triage.tiers.quick is Some && score <= config.triage.tiers.quick->Some_0 {
        Tier::Quick
    } else if config.triage.tiers.standard is Some && score <= config.triage.tiers.standard->Some_0 {
        Tier::Standard
    } else {
        Tier::Deep
    }
}

/// The tier of a score.
pub fn tier_for_score(score: i128, config: &AutoreviewConfig) -> (tier: Tier)
    ensures
        tier == tier_of(score as int, *config),
{
    if let Some(max) = config.triage.tiers.quick {
        if score <= max {
            return Tier::Quick;
        }
    }
    if let Some(max) = config.triage.tiers.standard {
        if score <= max {
            return Tier::Standard;
        }
    }
    Tier::Deep
}

/// The pattern is a glob and matches the path of one of the files.
pub open spec fn some_file_matches(files: Seq<FileChangeView>, pattern: Seq<char>) -> bool {
    exists|i: int|
        0 <= i < files.len() && globs::glob_match(pattern, (#[trigger] files[i]).path) == Some(true)
}

fn any_file_matches(files: &Vec<FileChange>, pattern: &str) -> (r: bool)
    ensures
        r == some_file_matches(text::views(files@), pattern@),
{
    let ghost all = text::views(files@);
    let mut i: usize = 0;
    while i < files.len()
        invariant
            0 <= i <= files@.len(),
            all == text::views(files@),
            forall|j: int|
                0 <= j < i ==> globs::glob_match(pattern@, (#[trigger] all[j]).path) != Some(true),
        decreases files.len() - i,
    {
        match globs::glob_is_match(pattern, files[i].path.as_str()) {
            Some(true) => {
                proof {
                    assert(globs::glob_match(pattern@, all[i as int].path) == Some(true));
                }
                return true;
            },
            _ => {},
        }
        i += 1;
    }
    false
}

/// The globs that match a file, each behind `glob:`.
pub open spec fn glob_triggers(patterns: Seq<Seq<char>>, files: Seq<FileChangeView>) -> Seq<Seq<char>>
    decreases patterns.len(),
{
    if patterns.len() == 0 {
        Seq::empty()
    } else if some_file_matches(files, patterns.last()) {
        glob_triggers(patterns.drop_last(), files).push("glob:"@ + patterns.last())
    } else {
        glob_triggers(patterns.drop_last(), files)
    }
}

/// The wanted signals that are there, each behind `signal:`.
pub open spec fn signal_triggers(wanted: Seq<Seq<char>>, names: Seq<Seq<char>>) -> Seq<Seq<char>>
    decreases wanted.len(),
{
    if wanted.len() == 0 {
        Seq::empty()
    } else if names.contains(wanted.last()) {
        signal_triggers(wanted.drop_last(), names).push("signal:"@ + wanted.last())
    } else {
        signal_triggers(wanted.drop_last(), names)
    }
}

/// Everything that summons a skill for a diff.
pub open spec fn triggers_of(
    skill: SkillManifest,
    files: Seq<FileChangeView>,
    names: Seq<Seq<char>>,
) -> Seq<Seq<char>> {
    (if skill.triggers.always {
        seq!["always"@]
    } else {
        Seq::empty()
    }) + glob_triggers(text::views(skill.triggers.globs@), files) + signal_triggers(
        text::views(skill.triggers.signals@),
        names,
    )
}

/// A trigger that summons even an expensive skill to a quick review.
pub open spec fn strong(via: Seq<Seq<char>>) -> bool {
    via.contains("signal:sensitivePathHit"@) || via.contains("signal:dependencyChange"@)
}

/// Everything that summons a skill for a review of a tier. A quick review
/// summons only cheap skills, unless a strong trigger is among what summons
/// them. Without any trigger the skill is not summoned.
pub open spec fn summons(
    skill: SkillManifest,
    files: Seq<FileChangeView>,
    names: Seq<Seq<char>>,
    tier: Tier,
) -> Seq<Seq<char>> {
    let via = triggers_of(skill, files, names);
    if tier == Tier::Quick && skill.cost_class != CostClass::Quick && !strong(via) {
        Seq::empty()
    } else {
        via
    }
}

/// Whether a skill is summoned for a review of a tier, and by what.
pub fn skill_matches_trigger(
    skill: &SkillManifest,
    facts: &DiffFacts,
    signal_names: &Vec<String>,
    tier: Tier,
) -> (matched: (bool, Vec<String>))
    ensures
        text::views(matched.1@) == summons(
            *skill,
            facts@.files,
            text::views(signal_names@),
            tier,
        ),
        matched.0 == (matched.1@.len() > 0),
{
    let mut via: Vec<String> = Vec::new();
    if skill.triggers.always {
        via.push("always".to_owned());
    }
    let ghost first = text::views(via@);
    let ghost patterns = text::views(skill.triggers.globs@);
    let ghost wanted = text::views(skill.triggers.signals@);
    let ghost names = text::views(signal_names@);
    let ghost files = facts@.files;
    proof {
        assert(first =~= if skill.triggers.always {
            seq!["always"@]
        } else {
            Seq::empty()
        });
        assert(first + Seq::<Seq<char>>::empty() =~= first);
    }
    let mut i: usize = 0;
    while i < skill.triggers.globs.len()
        invariant
            0 <= i <= skill.triggers.globs@.len(),
            patterns == text::views(skill.triggers.globs@),
            files == facts@.files,
            text::views(via@) == first + glob_triggers(patterns.take(i as int), files),
        decreases skill.triggers.globs.len() - i,
    {
        proof {
            assert(patterns.take(i + 1).drop_last() =~= patterns.take(i as int));
            assert(patterns.take(i + 1).last() == skill.triggers.globs@[i as int]@);
        }
        if any_file_matches(&facts.files, skill.triggers.globs[i].as_str()) {
            let trigger: String = text::concat2("glob:", skill.triggers.globs[i].as_str());
            proof {
                text::lemma_views_push(via@, trigger);
                assert((first + glob_triggers(patterns.take(i as int), files)).push(trigger@)
                    =~= first + glob_triggers(patterns.take(i as int), files).push(trigger@));
            }
            via.push(trigger);
        }
        i += 1;
    }
    proof {
        assert(patterns.take(patterns.len() as int) =~= patterns);
    }
    let ghost second = text::views(via@);
    proof {
        assert(second + Seq::<Seq<char>>::empty() =~= second);
    }
    i = 0;
    while i < skill.triggers.signals.len()
        invariant
            0 <= i <= skill.triggers.signals@.len(),
            wanted == text::views(skill.triggers.signals@),
            names == text::views(signal_names@),
            text::views(via@) == second + signal_triggers(wanted.take(i as int), names),
        decreases skill.triggers.signals.len() - i,
    {
        proof {
            assert(wanted.take(i + 1).drop_last() =~= wanted.take(i as int));
            assert(wanted.take(i + 1).last() == skill.triggers.signals@[i as int]@);
        }
        if text::contains_text(signal_names, skill.triggers.signals[i].as_str()) {
            let trigger: String = text::concat2("signal:", skill.triggers.signals[i].as_str());
            proof {
                text::lemma_views_push(via@, trigger);
                assert((second + signal_triggers(wanted.take(i as int), names)).push(trigger@)
                    =~= second + signal_triggers(wanted.take(i as int), names).push(trigger@));
            }
            via.push(trigger);
        }
        i += 1;
    }
    proof {
        assert(wanted.take(wanted.len() as int) =~= wanted);
        assert(text::views(via@) == triggers_of(*skill, files, names));
    }
    let strong_override: bool = text::contains_text(&via, "signal:sensitivePathHit")
        || text::contains_text(&via, "signal:dependencyChange");
    if tier == Tier::Quick && skill.cost_class != CostClass::Quick && !strong_override {
        let none: Vec<String> = Vec::new();
        proof {
            assert(text::views(none@) =~= Seq::empty());
        }
        return (false, none);
    }
    (via.len() > 0, via)
}

/// What the caller of a review insists on. Dollars are counted in millionths.
#[derive(Debug, Clone)]
pub struct PlanOverrides {
    pub tier: Option<Tier>,
    pub aspects: Option<Vec<String>>,
    pub max_usd: Option<u64>,
}

impl Default for PlanOverrides {
    /// Nothing is insisted on.
    fn default() -> (overrides: Self)
        ensures
            overrides.tier is None,
            overrides.aspects is None,
            overrides.max_usd is None,
    {
        PlanOverrides { tier: None, aspects: None, max_usd: None }
    }
}

/// The budget of a tier.
pub open spec fn budget_of(config: AutoreviewConfig, tier: Tier) -> TierBudget {
    match tier {
        Tier::Quick => config.budgets.tiers.quick,
        Tier::Standard => config.budgets.tiers.standard,
        Tier::Deep => config.budgets.tiers.deep,
    }
}

/// The model that agents of a tier run on.
pub open spec fn model_of(config: AutoreviewConfig, tier: Tier) -> Seq<char> {
    match budget_of(config, tier).per_agent.model {
        ModelAlias::Cheap => config.budgets.models.cheap@,
        ModelAlias::Standard => config.budgets.models.standard@,
        ModelAlias::Deep => config.budgets.models.deep@,
    }
}

/// The names of signals.
pub open spec fn names_of(signals: Seq<SignalScoreView>) -> Seq<Seq<char>> {
    Seq::new(signals.len(), |i: int| signals[i].signal)
}

/// An aspect that the caller lets run.
pub open spec fn aspect_allowed(allowed: Option<Vec<String>>, aspect: Seq<char>) -> bool {
    match allowed {
        Some(list) => text::views(list@).contains(aspect),
        None => true,
    }
}

/// The skills that are summoned and allowed, in their order.
pub open spec fn summoned(
    skills: Seq<SkillManifest>,
    files: Seq<FileChangeView>,
    names: Seq<Seq<char>>,
    tier: Tier,
    config: AutoreviewConfig,
    allowed: Option<Vec<String>>,
) -> Seq<SpecialistView>
    decreases skills.len(),
{
    if skills.len() == 0 {
        Seq::empty()
    } else {
        let rest = summoned(skills.drop_last(), files, names, tier, config, allowed);
        let via = summons(skills.last(), files, names, tier);
        if via.len() > 0 && aspect_allowed(allowed, skills.last().id@) {
            rest.push(
                SpecialistView {
                    aspect: skills.last().id@,
                    triggered_by: via,
                    model: model_of(config, tier),
                    max_turns: budget_of(config, tier).per_agent.max_turns,
                },
            )
        } else {
            rest
        }
    }
}

/// The first entries of a list, `n` at most.
pub open spec fn first_of<T>(list: Seq<T>, n: nat) -> Seq<T> {
    if n < list.len() {
        list.take(n as int)
    } else {
        list
    }
}

/// What the caller insists on, as it is written in options.
pub open spec fn override_labels(overrides: PlanOverrides) -> Seq<Seq<char>> {
    (match overrides.tier {
        Some(t) => seq!["--tier="@ + t.label()],
        None => Seq::empty(),
    }) + (match overrides.aspects {
        Some(aspects) => seq!["--aspects="@ + text::joined(text::views(aspects@), ","@)],
        None => Seq::empty(),
    }) + (match overrides.max_usd {
        Some(usd) => seq!["--max-usd="@ + text::millionths_of(usd as nat)],
        None => Seq::empty(),
    })
}

/// The review that is planned for a diff.
pub open spec fn plan_of(
    facts: DiffFactsView,
    config: AutoreviewConfig,
    skills: Seq<SkillManifest>,
    findings: nat,
    overrides: PlanOverrides,
) -> ReviewPlanView {
    let signals = signals_of(facts, config, findings);
    let score = score_of(signals);
    let tier = match overrides.tier {
        Some(t) => t,
        None => tier_of(score, config),
    };
    let budget = budget_of(config, tier);
    ReviewPlanView {
        tier,
        score: score as i128,
        signals,
        specialists: first_of(
            summoned(skills, facts.files, names_of(signals), tier, config, overrides.aspects),
            budget.max_agents as nat,
        ),
        budgets: PlanBudgets {
            max_agents: budget.max_agents,
            total_token_cap: budget.total_token_cap,
            wall_clock_sec: budget.wall_clock_sec,
        },
        overrides: override_labels(overrides),
    }
}

fn tier_budget(config: &AutoreviewConfig, tier: Tier) -> (budget: TierBudget)
    ensures
        budget == budget_of(*config, tier),
{
    match tier {
        Tier::Quick => config.budgets.tiers.quick,
        Tier::Standard => config.budgets.tiers.standard,
        Tier::Deep => config.budgets.tiers.deep,
    }
}

fn tier_model(config: &AutoreviewConfig, tier: Tier) -> (model: &str)
    ensures
        model@ == model_of(*config, tier),
{
    match tier_budget(config, tier).per_agent.model {
        ModelAlias::Cheap => config.budgets.models.cheap.as_str(),
        ModelAlias::Standard => config.budgets.models.standard.as_str(),
        ModelAlias::Deep => config.budgets.models.deep.as_str(),
    }
}

fn signal_names(signals: &Vec<TriageSignalScore>) -> (names: Vec<String>)
    ensures
        text::views(names@) == names_of(text::views(signals@)),
{
    let ghost all = names_of(text::views(signals@));
    let mut names: Vec<String> = Vec::new();
    let mut i: usize = 0;
    while i < signals.len()
        invariant
            0 <= i <= signals@.len(),
            all == names_of(text::views(signals@)),
            names@.len() == i,
            forall|j: int| 0 <= j < i ==> (#[trigger] names@[j])@ == all[j],
        decreases signals.len() - i,
    {
        names.push(signals[i].signal.clone());
        i += 1;
    }
    proof {
        assert(text::views(names@) =~= all);
    }
    names
}

fn is_allowed(allowed: &Option<Vec<String>>, aspect: &str) -> (r: bool)
    ensures
        r == aspect_allowed(*allowed, aspect@),
{
    match allowed {
        Some(list) => text::contains_text(list, aspect),
        None => true,
    }
}

fn specialists_for(
    skills: &[SkillManifest],
    facts: &DiffFacts,
    names: &Vec<String>,
    tier: Tier,
    config: &AutoreviewConfig,
    allowed: &Option<Vec<String>>,
) -> (found: Vec<SpecialistPlanEntry>)
    ensures
        text::views(found@) == summoned(
            skills@,
            facts@.files,
            text::views(names@),
            tier,
            *config,
            *allowed,
        ),
{
    let ghost files = facts@.files;
    let ghost seen = text::views(names@);
    let mut found: Vec<SpecialistPlanEntry> = Vec::new();
    proof {
        assert(text::views(found@) =~= Seq::empty());
    }
    let mut i: usize = 0;
    while i < skills.len()
        invariant
            0 <= i <= skills@.len(),
            files == facts@.files,
            seen == text::views(names@),
            text::views(found@) == summoned(
                skills@.take(i as int),
                files,
                seen,
                tier,
                *config,
                *allowed,
            ),
        decreases skills.len() - i,
    {
        proof {
            assert(skills@.take(i + 1).drop_last() =~= skills@.take(i as int));
            assert(skills@.take(i + 1).last() == skills@[i as int]);
        }
        let skill: &SkillManifest = &skills[i];
        let (matched, via) = skill_matches_trigger(skill, facts, names, tier);
        if matched && is_allowed(allowed, skill.id.as_str()) {
            let entry = SpecialistPlanEntry {
                aspect: skill.id.clone(),
                triggered_by: via,
                model: tier_model(config, tier).to_owned(),
                max_turns: tier_budget(config, tier).per_agent.max_turns,
            };
            proof {
                text::lemma_views_push(found@, entry);
            }
            found.push(entry);
        }
        i += 1;
    }
    proof {
        assert(skills@.take(skills@.len() as int) =~= skills@);
    }
    found
}

fn labels_for(overrides: &PlanOverrides) -> (labels: Vec<String>)
    ensures
        text::views(labels@) == override_labels(*overrides),
{
    let mut labels: Vec<String> = Vec::new();
    if let Some(tier) = overrides.tier {
        labels.push(text::concat2("--tier=", tier.as_str()));
    }
    if let Some(aspects) = &overrides.aspects {
        let list: String = text::join(aspects, ",");
        labels.push(text::concat2("--aspects=", list.as_str()));
    }
    if let Some(usd) = overrides.max_usd {
        let amount: String = text::millionths(usd);
        labels.push(text::concat2("--max-usd=", amount.as_str()));
    }
    proof {
        assert(text::views(labels@) =~= override_labels(*overrides));
    }
    labels
}

/// The review that is planned for a diff.
pub fn plan_review(
    facts: &DiffFacts,
    config: &AutoreviewConfig,
    skills: &[SkillManifest],
    analyzer_finding_count: usize,
    overrides: PlanOverrides,
) -> (plan: ReviewPlan)
    ensures
        plan@ == plan_of(facts@, *config, skills@, analyzer_finding_count as nat, overrides),
{
    let (score, signals) = score_diff_facts(facts, config, analyzer_finding_count);
    let tier: Tier = match overrides.tier {
        Some(t) => t,
        None => tier_for_score(score, config),
    };
    let names: Vec<String> = signal_names(&signals);
    let budget: TierBudget = tier_budget(config, tier);
    let mut specialists: Vec<SpecialistPlanEntry> = specialists_for(
        skills,
        facts,
        &names,
        tier,
        config,
        &overrides.aspects,
    );
    let ghost all = specialists@;
    if (budget.max_agents as usize) < specialists.len() {
        specialists.truncate(budget.max_agents as usize);
        proof {
            assert(text::views(specialists@) =~= text::views(all).take(budget.max_agents as int));
        }
    }
    let labels: Vec<String> = labels_for(&overrides);
    ReviewPlan {
        tier,
        score,
        signals,
        specialists,
        budgets: PlanBudgets {
            max_agents: budget.max_agents,
            total_token_cap: budget.total_token_cap,
            wall_clock_sec: budget.wall_clock_sec,
        },
        overrides: labels,
    }
}

/// A plan never has more specialists than its tier's budget has agents.
pub proof fn specialists_stay_in_budget(
    facts: DiffFactsView,
    config: AutoreviewConfig,
    skills: Seq<SkillManifest>,
    findings: nat,
    overrides: PlanOverrides,
)
    ensures
        ({
            let plan = plan_of(facts, config, skills, findings, overrides);
            plan.specialists.len() <= budget_of(config, plan.tier).max_agents
        }),
{
}

proof fn lemma_summoned(
    skills: Seq<SkillManifest>,
    files: Seq<FileChangeView>,
    names: Seq<Seq<char>>,
    tier: Tier,
    config: AutoreviewConfig,
    allowed: Option<Vec<String>>,
    k: int,
) -> (i: int)
    requires
        0 <= k < summoned(skills, files, names, tier, config, allowed).len(),
    ensures
        0 <= i < skills.len(),
        ({
            let entry = summoned(skills, files, names, tier, config, allowed)[k];
            &&& entry.aspect == skills[i].id@
            &&& entry.triggered_by == summons(skills[i], files, names, tier)
            &&& entry.triggered_by.len() > 0
            &&& aspect_allowed(allowed, entry.aspect)
        }),
    decreases skills.len(),
{
    let rest = summoned(skills.drop_last(), files, names, tier, config, allowed);
    if k < rest.len() {
        let i = lemma_summoned(skills.drop_last(), files, names, tier, config, allowed, k);
        assert(skills.drop_last()[i] == skills[i]);
        i
    } else {
        skills.len() - 1
    }
}

/// Every specialist of a plan is one of the skills, was summoned by something,
/// and is among the aspects that the caller lets run.
pub proof fn specialists_are_summoned_and_allowed(
    facts: DiffFactsView,
    config: AutoreviewConfig,
    skills: Seq<SkillManifest>,
    findings: nat,
    overrides: PlanOverrides,
    k: int,
)
    requires
        0 <= k < plan_of(facts, config, skills, findings, overrides).specialists.len(),
    ensures
        ({
            let entry = plan_of(facts, config, skills, findings, overrides).specialists[k];
            &&& entry.triggered_by.len() > 0
            &&& aspect_allowed(overrides.aspects, entry.aspect)
            &&& exists|i: int| 0 <= i < skills.len() && entry.aspect == (#[trigger] skills[i]).id@
        }),
{
    let plan = plan_of(facts, config, skills, findings, overrides);
    let i = lemma_summoned(
        skills,
        facts.files,
        names_of(plan.signals),
        plan.tier,
        config,
        overrides.aspects,
        k,
    );
    assert(plan.specialists[k].aspect == skills[i].id@);
}

/// In a quick review every specialist is a cheap skill or was summoned by a
/// strong trigger.
pub proof fn quick_reviews_stay_cheap(
    facts: DiffFactsView,
    config: AutoreviewConfig,
    skills: Seq<SkillManifest>,
    findings: nat,
    overrides: PlanOverrides,
    k: int,
)
    requires
        plan_of(facts, config, skills, findings, overrides).tier == Tier::Quick,
        0 <= k < plan_of(facts, config, skills, findings, overrides).specialists.len(),
    ensures
        ({
            let entry = plan_of(facts, config, skills, findings, overrides).specialists[k];
            strong(entry.triggered_by) || exists|i: int|
                0 <= i < skills.len() && entry.aspect == (#[trigger] skills[i]).id@
                    && skills[i].cost_class == CostClass::Quick
        }),
{
    let plan = plan_of(facts, config, skills, findings, overrides);
    let i = lemma_summoned(
        skills,
        facts.files,
        names_of(plan.signals),
        plan.tier,
        config,
        overrides.aspects,
        k,
    );
    assert(plan.specialists[k].aspect == skills[i].id@);
}

proof fn lemma_positive_both(a: Seq<SignalScoreView>, b: Seq<SignalScoreView>)
    requires
        positive(a),
        positive(b),
    ensures
        positive(a + b),
{
    assert forall|i: int| 0 <= i < (a + b).len() implies (#[trigger] (a + b)[i]).points > 0 by {
        if i < a.len() {
            assert((a + b)[i] == a[i]);
        } else {
            assert((a + b)[i] == b[i - a.len()]);
        }
    }
}

proof fn lemma_signals_positive(facts: DiffFactsView, config: AutoreviewConfig, findings: nat)
    ensures
        positive(signals_of(facts, config, findings)),
{
    let lines = at_most_u64(lines_in(facts.files));
    let by_lines = weight_or_none(config, "linesChanged"@);
    let by_files = weight_or_none(config, "filesChanged"@);
    let by_branches = weight_or_none(config, "complexityDelta"@);
    let by_density = weight_or_none(config, "analyzerDensity"@);
    lemma_worth_fits(lines, by_lines.per_line, by_lines.cap);
    lemma_worth_fits(at_most_u64(facts.files.len()), by_files.per_file, by_files.cap);
    lemma_worth_fits(
        facts.added_branch_keywords as u64,
        by_branches.per_branch,
        by_branches.cap,
    );
    lemma_density_fits(findings, lines, by_density.per_finding_per_kloc, by_density.cap);
    let s1 = signal_with("linesChanged"@, worth(lines, by_lines.per_line, by_lines.cap), None);
    let s2 = signal_with(
        "filesChanged"@,
        worth(at_most_u64(facts.files.len()), by_files.per_file, by_files.cap),
        None,
    );
    let s3 = signal_with(
        "sensitivePathHit"@,
        flag_worth(facts.sensitive_path_hit, weight_or_none(config, "sensitivePathHit"@)),
        Some(text::joined(facts.sensitive_paths, ", "@)),
    );
    let s4 = signal_with(
        "dependencyChange"@,
        flag_worth(facts.dependency_change, weight_or_none(config, "dependencyChange"@)),
        None,
    );
    let s5 = signal_with(
        "ciOrInfraChange"@,
        flag_worth(facts.ci_or_infra_change, weight_or_none(config, "ciOrInfraChange"@)),
        None,
    );
    let s6 = signal_with(
        "complexityDelta"@,
        worth(facts.added_branch_keywords as u64, by_branches.per_branch, by_branches.cap),
        None,
    );
    let s7 = signal_with(
        "noTestsWithSource"@,
        flag_worth(facts.source_touched_without_tests, weight_or_none(config, "noTestsWithSource"@)),
        None,
    );
    let s8 = if findings > 0 {
        signal_with(
            "analyzerDensity"@,
            density_worth(findings, lines, by_density.per_finding_per_kloc, by_density.cap),
            Some(text::decimal_of(findings) + " finding(s)"@),
        )
    } else {
        Seq::empty()
    };
    lemma_positive_both(s1, s2);
    lemma_positive_both(s1 + s2, s3);
    lemma_positive_both(s1 + s2 + s3, s4);
    lemma_positive_both(s1 + s2 + s3 + s4, s5);
    lemma_positive_both(s1 + s2 + s3 + s4 + s5, s6);
    lemma_positive_both(s1 + s2 + s3 + s4 + s5 + s6, s7);
    lemma_positive_both(s1 + s2 + s3 + s4 + s5 + s6 + s7, s8);
}

proof fn lemma_worth_fits(count: u64, rate: Option<i64>, cap: Option<i64>)
    ensures
        worth(count, rate, cap) <= i128::MAX,
{
    if rate is Some {
        let r = rate->Some_0;
        assert(count * r <= i128::MAX) by (nonlinear_arith)
            requires
                0 <= count <= u64::MAX,
                i64::MIN <= r <= i64::MAX,
        ;
    }
}

proof fn lemma_density_fits(findings: nat, lines: u64, rate: Option<i64>, cap: Option<i64>)
    ensures
        density_worth(findings, lines, rate, cap) <= i128::MAX,
{
    if rate is Some && rate->Some_0 > 0 {
        let r = rate->Some_0;
        let value = at_most_i128(findings * 1000 * r);
        let per = if lines == 0 {
            1
        } else {
            lines as int
        };
        assert(findings * 1000 * r >= 0) by (nonlinear_arith)
            requires
                findings >= 0,
                r > 0,
        ;
        assert(rounded_up(value, per) <= value) by (nonlinear_arith)
            requires
                value >= 0,
                per >= 1,
                rounded_up(value, per) == if value % per == 0 {
                    value / per
                } else {
                    value / per + 1
                },
        ;
    }
}

/// No score is below zero.
pub proof fn scores_are_never_negative(facts: DiffFactsView, config: AutoreviewConfig, findings: nat)
    ensures
        score_of(signals_of(facts, config, findings)) >= 0,
{
    lemma_signals_positive(facts, config, findings);
    lemma_points_positive(signals_of(facts, config, findings));
}

proof fn lemma_points_add(a: Seq<SignalScoreView>, b: Seq<SignalScoreView>)
    ensures
        points_in(a + b) == points_in(a) + points_in(b),
    decreases b.len(),
{
    if b.len() > 0 {
        lemma_points_add(a, b.drop_last());
        assert((a + b).drop_last() =~= a + b.drop_last());
        assert((a + b).last() == b.last());
    } else {
        assert(a + b =~= a);
    }
}

/// Points that count: those above zero.
pub open spec fn counted(points: int) -> int {
    if points > 0 {
        points
    } else {
        0
    }
}

proof fn lemma_points_of_one(signal: Seq<char>, points: int, detail: Option<Seq<char>>)
    requires
        points <= i128::MAX,
    ensures
        points_in(signal_with(signal, points, detail)) == counted(points),
{
    let one = signal_with(signal, points, detail);
    if points > 0 {
        assert(one.drop_last() =~= Seq::empty());
        assert(points_in(one.drop_last()) == 0);
        assert(one.last().points == points);
    }
}

/// The points of a diff are those of its signals together.
proof fn lemma_points_of_facts(facts: DiffFactsView, config: AutoreviewConfig, findings: nat)
    ensures
        points_in(signals_of(facts, config, findings)) == ({
            let lines = at_most_u64(lines_in(facts.files));
            let by_lines = weight_or_none(config, "linesChanged"@);
            let by_files = weight_or_none(config, "filesChanged"@);
            let by_branches = weight_or_none(config, "complexityDelta"@);
            let by_density = weight_or_none(config, "analyzerDensity"@);
            counted(worth(lines, by_lines.per_line, by_lines.cap)) + counted(
                worth(at_most_u64(facts.files.len()), by_files.per_file, by_files.cap),
            ) + counted(
                flag_worth(facts.sensitive_path_hit, weight_or_none(config, "sensitivePathHit"@)),
            ) + counted(
                flag_worth(facts.dependency_change, weight_or_none(config, "dependencyChange"@)),
            ) + counted(
                flag_worth(facts.ci_or_infra_change, weight_or_none(config, "ciOrInfraChange"@)),
            ) + counted(
                worth(facts.added_branch_keywords as u64, by_branches.per_branch, by_branches.cap),
            ) + counted(
                flag_worth(
                    facts.source_touched_without_tests,
                    weight_or_none(config, "noTestsWithSource"@),
                ),
            ) + if findings > 0 {
                counted(
                    density_worth(findings, lines, by_density.per_finding_per_kloc, by_density.cap),
                )
            } else {
                0
            }
        }),
{
    let lines = at_most_u64(lines_in(facts.files));
    let by_lines = weight_or_none(config, "linesChanged"@);
    let by_files = weight_or_none(config, "filesChanged"@);
    let by_branches = weight_or_none(config, "complexityDelta"@);
    let by_density = weight_or_none(config, "analyzerDensity"@);
    let w1 = worth(lines, by_lines.per_line, by_lines.cap);
    let w2 = worth(at_most_u64(facts.files.len()), by_files.per_file, by_files.cap);
    let w3 = flag_worth(facts.sensitive_path_hit, weight_or_none(config, "sensitivePathHit"@));
    let w4 = flag_worth(facts.dependency_change, weight_or_none(config, "dependencyChange"@));
    let w5 = flag_worth(facts.ci_or_infra_change, weight_or_none(config, "ciOrInfraChange"@));
    let w6 = worth(facts.added_branch_keywords as u64, by_branches.per_branch, by_branches.cap);
    let w7 = flag_worth(
        facts.source_touched_without_tests,
        weight_or_none(config, "noTestsWithSource"@),
    );
    let w8 = density_worth(findings, lines, by_density.per_finding_per_kloc, by_density.cap);
    let d3 = Some(text::joined(facts.sensitive_paths, ", "@));
    let d8 = Some(text::decimal_of(findings) + " finding(s)"@);
    lemma_worth_fits(lines, by_lines.per_line, by_lines.cap);
    lemma_worth_fits(at_most_u64(facts.files.len()), by_files.per_file, by_files.cap);
    lemma_worth_fits(
        facts.added_branch_keywords as u64,
        by_branches.per_branch,
        by_branches.cap,
    );
    lemma_density_fits(findings, lines, by_density.per_finding_per_kloc, by_density.cap);
    lemma_points_of_one("linesChanged"@, w1, None);
    lemma_points_of_one("filesChanged"@, w2, None);
    lemma_points_of_one("sensitivePathHit"@, w3, d3);
    lemma_points_of_one("dependencyChange"@, w4, None);
    lemma_points_of_one("ciOrInfraChange"@, w5, None);
    lemma_points_of_one("complexityDelta"@, w6, None);
    lemma_points_of_one("noTestsWithSource"@, w7, None);
    lemma_points_of_one("analyzerDensity"@, w8, d8);
    let s1 = signal_with("linesChanged"@, w1, None);
    let s2 = signal_with("filesChanged"@, w2, None);
    let s3 = signal_with("sensitivePathHit"@, w3, d3);
    let s4 = signal_with("dependencyChange"@, w4, None);
    let s5 = signal_with("ciOrInfraChange"@, w5, None);
    let s6 = signal_with("complexityDelta"@, w6, None);
    let s7 = signal_with("noTestsWithSource"@, w7, None);
    let s8 = if findings > 0 {
        signal_with("analyzerDensity"@, w8, d8)
    } else {
        Seq::empty()
    };
    lemma_points_add(s1, s2);
    lemma_points_add(s1 + s2, s3);
    lemma_points_add(s1 + s2 + s3, s4);
    lemma_points_add(s1 + s2 + s3 + s4, s5);
    lemma_points_add(s1 + s2 + s3 + s4 + s5, s6);
    lemma_points_add(s1 + s2 + s3 + s4 + s5 + s6, s7);
    lemma_points_add(s1 + s2 + s3 + s4 + s5 + s6 + s7, s8);
}

proof fn lemma_worth_grows(less: u64, more: u64, rate: Option<i64>, cap: Option<i64>)
    requires
        less <= more,
    ensures
        counted(worth(less, rate, cap)) <= counted(worth(more, rate, cap)),
{
    if rate is Some {
        let r = rate->Some_0;
        if r >= 0 {
            assert(less * r <= more * r) by (nonlinear_arith)
                requires
                    less <= more,
                    r >= 0,
            ;
        } else {
            assert(less * r <= 0) by (nonlinear_arith)
                requires
                    less >= 0,
                    r < 0,
            ;
        }
    }
}

proof fn lemma_density_grows(less: nat, more: nat, lines: u64, rate: Option<i64>, cap: Option<i64>)
    requires
        less <= more,
    ensures
        counted(density_worth(less, lines, rate, cap)) <= counted(
            density_worth(more, lines, rate, cap),
        ),
{
    if rate is Some && rate->Some_0 > 0 {
        let r = rate->Some_0;
        let per = if lines == 0 {
            1
        } else {
            lines as int
        };
        assert(less * 1000 * r <= more * 1000 * r) by (nonlinear_arith)
            requires
                less <= more,
                r > 0,
        ;
        let x = at_most_i128(less * 1000 * r);
        let y = at_most_i128(more * 1000 * r);
        assert(less * 1000 * r >= 0) by (nonlinear_arith)
            requires
                less >= 0,
                r > 0,
        ;
        rounding_decides_alike(x, per, rounded_up(y, per));
        rounding_decides_alike(y, per, rounded_up(y, per));
    }
}

/// Rounding up changes no decision: against a whole number, rounded points fall as
/// the exact share does, and there are points where the share is above zero. So a
/// signal is listed, a cap applies and a tier is picked as by the exact share.
pub proof fn rounding_decides_alike(n: int, per: int, limit: int)
    requires
        per > 0,
    ensures
        rounded_up(n, per) <= limit <==> n <= limit * per,
        rounded_up(n, per) > 0 <==> n > 0,
{
    let whole = n / per;
    let left = n % per;
    assert(n == whole * per + left && 0 <= left < per) by (nonlinear_arith)
        requires
            per > 0,
            whole == n / per,
            left == n % per,
    ;
    if left == 0 {
        assert(whole <= limit <==> whole * per <= limit * per) by (nonlinear_arith)
            requires
                per > 0,
        ;
        assert(whole > 0 <==> whole * per > 0) by (nonlinear_arith)
            requires
                per > 0,
        ;
    } else {
        assert(whole + 1 <= limit <==> whole * per + left <= limit * per) by (nonlinear_arith)
            requires
                0 < left < per,
        ;
        assert(whole + 1 > 0 <==> whole * per + left > 0) by (nonlinear_arith)
            requires
                0 < left < per,
        ;
    }
}

/// More findings of analyzers never make for a lower score.
pub proof fn findings_never_lower_a_score(
    facts: DiffFactsView,
    config: AutoreviewConfig,
    less: nat,
    more: nat,
)
    requires
        less <= more,
    ensures
        score_of(signals_of(facts, config, less)) <= score_of(signals_of(facts, config, more)),
{
    let by_density = weight_or_none(config, "analyzerDensity"@);
    lemma_points_of_facts(facts, config, less);
    lemma_points_of_facts(facts, config, more);
    lemma_density_grows(
        less,
        more,
        at_most_u64(lines_in(facts.files)),
        by_density.per_finding_per_kloc,
        by_density.cap,
    );
}

/// A diff is at most as risky as another: it has no more lines, files and
/// branches, and nothing that the other has not.
pub open spec fn no_riskier(a: DiffFactsView, b: DiffFactsView) -> bool {
    &&& lines_in(a.files) <= lines_in(b.files)
    &&& a.files.len() <= b.files.len()
    &&& a.added_branch_keywords <= b.added_branch_keywords
    &&& a.sensitive_path_hit ==> b.sensitive_path_hit
    &&& a.dependency_change ==> b.dependency_change
    &&& a.ci_or_infra_change ==> b.ci_or_infra_change
    &&& a.source_touched_without_tests ==> b.source_touched_without_tests
}

/// A riskier diff never scores lower, whatever the weights are. Findings count by
/// the thousand lines, so where there are findings the diffs have as many lines.
pub proof fn riskier_diffs_never_score_lower(
    a: DiffFactsView,
    b: DiffFactsView,
    config: AutoreviewConfig,
    findings: nat,
)
    requires
        no_riskier(a, b),
        findings == 0 || lines_in(a.files) == lines_in(b.files),
    ensures
        score_of(signals_of(a, config, findings)) <= score_of(signals_of(b, config, findings)),
{
    let by_lines = weight_or_none(config, "linesChanged"@);
    let by_files = weight_or_none(config, "filesChanged"@);
    let by_branches = weight_or_none(config, "complexityDelta"@);
    lemma_points_of_facts(a, config, findings);
    lemma_points_of_facts(b, config, findings);
    lemma_worth_grows(
        at_most_u64(lines_in(a.files)),
        at_most_u64(lines_in(b.files)),
        by_lines.per_line,
        by_lines.cap,
    );
    lemma_worth_grows(
        at_most_u64(a.files.len()),
        at_most_u64(b.files.len()),
        by_files.per_file,
        by_files.cap,
    );
    lemma_worth_grows(
        a.added_branch_keywords as u64,
        b.added_branch_keywords as u64,
        by_branches.per_branch,
        by_branches.cap,
    );
}

/// How deep a tier looks.
pub open spec fn depth_of(tier: Tier) -> int {
    match tier {
        Tier::Quick => 0,
        Tier::Standard => 1,
        Tier::Deep => 2,
    }
}

/// A higher score never makes for a shallower review, whatever the thresholds
/// are.
pub proof fn higher_scores_never_lower_the_tier(less: int, more: int, config: AutoreviewConfig)
    requires
        less <= more,
    ensures
        depth_of(tier_of(less, config)) <= depth_of(tier_of(more, config)),
{
}

/// Every specialist of a plan runs on the model that the configuration lists
/// under the alias of its tier's budget, and for as many turns as that budget
/// gives.
pub proof fn specialists_run_on_their_tiers_model(
    facts: DiffFactsView,
    config: AutoreviewConfig,
    skills: Seq<SkillManifest>,
    findings: nat,
    overrides: PlanOverrides,
    k: int,
)
    requires
        0 <= k < plan_of(facts, config, skills, findings, overrides).specialists.len(),
    ensures
        ({
            let plan = plan_of(facts, config, skills, findings, overrides);
            let entry = plan.specialists[k];
            let tiers = config.budgets.tiers;
            let models = config.budgets.models;
            let agent = match plan.tier {
                Tier::Quick => tiers.quick.per_agent,
                Tier::Standard => tiers.standard.per_agent,
                Tier::Deep => tiers.deep.per_agent,
            };
            &&& agent.model == ModelAlias::Cheap ==> entry.model == models.cheap@
            &&& agent.model == ModelAlias::Standard ==> entry.model == models.standard@
            &&& agent.model == ModelAlias::Deep ==> entry.model == models.deep@
            &&& entry.max_turns == agent.max_turns
        }),
{
    let plan = plan_of(facts, config, skills, findings, overrides);
    lemma_summoned_model(
        skills,
        facts.files,
        names_of(plan.signals),
        plan.tier,
        config,
        overrides.aspects,
        k,
    );
}

proof fn lemma_summoned_model(
    skills: Seq<SkillManifest>,
    files: Seq<FileChangeView>,
    names: Seq<Seq<char>>,
    tier: Tier,
    config: AutoreviewConfig,
    allowed: Option<Vec<String>>,
    k: int,
)
    requires
        0 <= k < summoned(skills, files, names, tier, config, allowed).len(),
    ensures
        summoned(skills, files, names, tier, config, allowed)[k].model == model_of(config, tier),
        summoned(skills, files, names, tier, config, allowed)[k].max_turns == budget_of(
            config,
            tier,
        ).per_agent.max_turns,
    decreases skills.len(),
{
    let rest = summoned(skills.drop_last(), files, names, tier, config, allowed);
    if k < rest.len() {
        lemma_summoned_model(skills.drop_last(), files, names, tier, config, allowed, k);
    }
}

/// What a plan may use is what the configuration gives its tier.
pub proof fn plans_have_their_tiers_budget(
    facts: DiffFactsView,
    config: AutoreviewConfig,
    skills: Seq<SkillManifest>,
    findings: nat,
    overrides: PlanOverrides,
)
    ensures
        ({
            let plan = plan_of(facts, config, skills, findings, overrides);
            let tiers = config.budgets.tiers;
            let budget = match plan.tier {
                Tier::Quick => tiers.quick,
                Tier::Standard => tiers.standard,
                Tier::Deep => tiers.deep,
            };
            &&& plan.budgets.max_agents == budget.max_agents
            &&& plan.budgets.total_token_cap == budget.total_token_cap
            &&& plan.budgets.wall_clock_sec == budget.wall_clock_sec
            &&& plan.specialists.len() <= budget.max_agents
        }),
{
}

/// The tier of a plan is the one that the caller insists on, or else goes by the
/// score: up to the highest quick score it is quick, past that and up to the
/// highest standard score it is standard, past both it is deep. A tier without a
/// highest score is never picked by the score.
pub proof fn the_tier_goes_by_the_score(
    facts: DiffFactsView,
    config: AutoreviewConfig,
    skills: Seq<SkillManifest>,
    findings: nat,
    overrides: PlanOverrides,
)
    ensures
        ({
            let plan = plan_of(facts, config, skills, findings, overrides);
            let score = score_of(signals_of(facts, config, findings));
            let within_quick = config.triage.tiers.quick matches Some(max) && score <= max;
            let within_standard = config.triage.tiers.standard matches Some(max) && score <= max;
            &&& overrides.tier matches Some(t) ==> plan.tier == t
            &&& overrides.tier is None && within_quick ==> plan.tier == Tier::Quick
            &&& overrides.tier is None && !within_quick && within_standard ==> plan.tier
                == Tier::Standard
            &&& overrides.tier is None && !within_quick && !within_standard ==> plan.tier
                == Tier::Deep
            &&& plan.score == score
        }),
{
    scores_are_never_negative(facts, config, findings);
}

/// The score of a diff is what its signals are worth together.
pub proof fn scores_add_up(signals: Seq<SignalScoreView>, more: SignalScoreView)
    requires
        positive(signals),
        more.points > 0,
        points_in(signals) + more.points <= i128::MAX,
    ensures
        score_of(Seq::<SignalScoreView>::empty()) == 0,
        score_of(signals.push(more)) == score_of(signals) + more.points,
{
    assert(signals.push(more).drop_last() =~= signals);
    lemma_points_positive(signals);
}

/// What summons a skill: `always` if it always runs, a glob that matches a file of
/// the diff, a signal that has points; and nothing else does.
pub proof fn skills_are_summoned_by_their_triggers(
    skill: SkillManifest,
    files: Seq<FileChangeView>,
    names: Seq<Seq<char>>,
    via: Seq<char>,
)
    ensures
        triggers_of(skill, files, names).contains(via) <==> {
            ||| skill.triggers.always && via == "always"@
            ||| exists|g: int, f: int|
                0 <= g < skill.triggers.globs@.len() && 0 <= f < files.len() && via == "glob:"@
                    + (#[trigger] skill.triggers.globs@[g])@ && globs::glob_match(
                    skill.triggers.globs@[g]@,
                    (#[trigger] files[f]).path,
                ) == Some(true)
            ||| exists|s: int, n: int|
                0 <= s < skill.triggers.signals@.len() && 0 <= n < names.len() && via
                    == "signal:"@ + (#[trigger] skill.triggers.signals@[s])@
                    && skill.triggers.signals@[s]@ == #[trigger] names[n]
        },
{
    let first = if skill.triggers.always {
        seq!["always"@]
    } else {
        Seq::empty()
    };
    let patterns = text::views(skill.triggers.globs@);
    let wanted = text::views(skill.triggers.signals@);
    let second = glob_triggers(patterns, files);
    let third = signal_triggers(wanted, names);
    text::lemma_joined_contains(first, second, via);
    text::lemma_joined_contains(first + second, third, via);
    if skill.triggers.always {
        assert(first[0] == "always"@);
    }
    lemma_glob_triggers(patterns, files, via);
    lemma_signal_triggers(wanted, names, via);
    if second.contains(via) {
        let g = choose|g: int|
            0 <= g < patterns.len() && via == "glob:"@ + #[trigger] patterns[g]
                && some_file_matches(files, patterns[g]);
        let f = choose|f: int|
            0 <= f < files.len() && globs::glob_match(patterns[g], (#[trigger] files[f]).path)
                == Some(true);
        assert(skill.triggers.globs@[g]@ == patterns[g]);
    }
    if exists|g: int, f: int|
        0 <= g < skill.triggers.globs@.len() && 0 <= f < files.len() && via == "glob:"@ + (
        #[trigger] skill.triggers.globs@[g])@ && globs::glob_match(
            skill.triggers.globs@[g]@,
            (#[trigger] files[f]).path,
        ) == Some(true) {
        let (g, f) = choose|g: int, f: int|
            0 <= g < skill.triggers.globs@.len() && 0 <= f < files.len() && via == "glob:"@ + (
            #[trigger] skill.triggers.globs@[g])@ && globs::glob_match(
                skill.triggers.globs@[g]@,
                (#[trigger] files[f]).path,
            ) == Some(true);
        assert(patterns[g] == skill.triggers.globs@[g]@);
        assert(some_file_matches(files, patterns[g]));
    }
    if third.contains(via) {
        let s = choose|s: int|
            0 <= s < wanted.len() && via == "signal:"@ + #[trigger] wanted[s] && names.contains(
                wanted[s],
            );
        let n = choose|n: int| 0 <= n < names.len() && names[n] == wanted[s];
        assert(skill.triggers.signals@[s]@ == names[n]);
    }
    if exists|s: int, n: int|
        0 <= s < skill.triggers.signals@.len() && 0 <= n < names.len() && via == "signal:"@ + (
        #[trigger] skill.triggers.signals@[s])@ && skill.triggers.signals@[s]@
            == #[trigger] names[n] {
        let (s, n) = choose|s: int, n: int|
            0 <= s < skill.triggers.signals@.len() && 0 <= n < names.len() && via == "signal:"@ + (
            #[trigger] skill.triggers.signals@[s])@ && skill.triggers.signals@[s]@
                == #[trigger] names[n];
        assert(wanted[s] == names[n]);
        assert(names.contains(wanted[s]));
    }
}

proof fn lemma_glob_triggers(patterns: Seq<Seq<char>>, files: Seq<FileChangeView>, via: Seq<char>)
    ensures
        glob_triggers(patterns, files).contains(via) <==> exists|g: int|
            0 <= g < patterns.len() && via == "glob:"@ + #[trigger] patterns[g]
                && some_file_matches(files, patterns[g]),
    decreases patterns.len(),
{
    if patterns.len() > 0 {
        let rest = patterns.drop_last();
        lemma_glob_triggers(rest, files, via);
        let last = patterns.len() - 1;
        text::lemma_push_contains(glob_triggers(rest, files), "glob:"@ + patterns[last], via);
        assert forall|g: int| 0 <= g < last implies rest[g] == #[trigger] patterns[g] by {}
        if glob_triggers(rest, files).contains(via) {
            let g = choose|g: int|
                0 <= g < rest.len() && via == "glob:"@ + #[trigger] rest[g] && some_file_matches(
                    files,
                    rest[g],
                );
            assert(patterns[g] == rest[g]);
        }
    } else {
        assert(glob_triggers(patterns, files).len() == 0);
    }
}

proof fn lemma_signal_triggers(wanted: Seq<Seq<char>>, names: Seq<Seq<char>>, via: Seq<char>)
    ensures
        signal_triggers(wanted, names).contains(via) <==> exists|s: int|
            0 <= s < wanted.len() && via == "signal:"@ + #[trigger] wanted[s] && names.contains(
                wanted[s],
            ),
    decreases wanted.len(),
{
    if wanted.len() > 0 {
        let rest = wanted.drop_last();
        lemma_signal_triggers(rest, names, via);
        let last = wanted.len() - 1;
        text::lemma_push_contains(signal_triggers(rest, names), "signal:"@ + wanted[last], via);
        assert forall|s: int| 0 <= s < last implies rest[s] == #[trigger] wanted[s] by {}
        if signal_triggers(rest, names).contains(via) {
            let s = choose|s: int|
                0 <= s < rest.len() && via == "signal:"@ + #[trigger] rest[s] && names.contains(
                    rest[s],
                );
            assert(wanted[s] == rest[s]);
        }
    } else {
        assert(signal_triggers(wanted, names).len() == 0);
    }
}

/// A skill takes part with all of its triggers, except that a quick review leaves
/// out a skill that is not cheap, unless a sensitive path or a dependency change is
/// among its triggers.
pub proof fn quick_reviews_leave_out_what_is_not_cheap(
    skill: SkillManifest,
    files: Seq<FileChangeView>,
    names: Seq<Seq<char>>,
    tier: Tier,
)
    ensures
        ({
            let via = triggers_of(skill, files, names);
            let exempt = via.contains("signal:sensitivePathHit"@) || via.contains(
                "signal:dependencyChange"@,
            );
            &&& tier != Tier::Quick ==> summons(skill, files, names, tier) == via
            &&& skill.cost_class == CostClass::Quick ==> summons(skill, files, names, tier) == via
            &&& exempt ==> summons(skill, files, names, tier) == via
            &&& tier == Tier::Quick && skill.cost_class != CostClass::Quick && !exempt ==> summons(
                skill,
                files,
                names,
                tier,
            ).len() == 0
        }),
{
}

/// Every skill that is summoned, and that the caller lets run, takes part where
/// the budget has agents for all, in the order of the skills.
pub proof fn summoned_skills_take_part(
    facts: DiffFactsView,
    config: AutoreviewConfig,
    skills: Seq<SkillManifest>,
    findings: nat,
    overrides: PlanOverrides,
    i: int,
)
    requires
        0 <= i < skills.len(),
        ({
            let plan = plan_of(facts, config, skills, findings, overrides);
            summons(skills[i], facts.files, names_of(plan.signals), plan.tier).len() > 0
        }),
        overrides.aspects matches Some(list) ==> exists|a: int|
            0 <= a < list@.len() && (#[trigger] list@[a])@ == skills[i].id@,
        ({
            let plan = plan_of(facts, config, skills, findings, overrides);
            skills.len() <= plan.budgets.max_agents
        }),
    ensures
        ({
            let plan = plan_of(facts, config, skills, findings, overrides);
            exists|k: int|
                0 <= k < plan.specialists.len() && (#[trigger] plan.specialists[k]).aspect
                    == skills[i].id@ && plan.specialists[k].triggered_by == summons(
                    skills[i],
                    facts.files,
                    names_of(plan.signals),
                    plan.tier,
                )
        }),
{
    let plan = plan_of(facts, config, skills, findings, overrides);
    if let Some(list) = overrides.aspects {
        let a = choose|a: int| 0 <= a < list@.len() && (#[trigger] list@[a])@ == skills[i].id@;
        assert(text::views(list@)[a] == skills[i].id@);
    }
    lemma_summoned_all(
        skills,
        facts.files,
        names_of(plan.signals),
        plan.tier,
        config,
        overrides.aspects,
        i,
    );
    let all = summoned(
        skills,
        facts.files,
        names_of(plan.signals),
        plan.tier,
        config,
        overrides.aspects,
    );
    assert(plan.specialists == all);
    let k = choose|k: int|
        0 <= k < all.len() && (#[trigger] all[k]).aspect == skills[i].id@ && all[k].triggered_by
            == summons(skills[i], facts.files, names_of(plan.signals), plan.tier);
    assert(plan.specialists[k].aspect == skills[i].id@);
}

proof fn lemma_summoned_all(
    skills: Seq<SkillManifest>,
    files: Seq<FileChangeView>,
    names: Seq<Seq<char>>,
    tier: Tier,
    config: AutoreviewConfig,
    allowed: Option<Vec<String>>,
    i: int,
)
    requires
        0 <= i < skills.len(),
        summons(skills[i], files, names, tier).len() > 0,
        aspect_allowed(allowed, skills[i].id@),
    ensures
        summoned(skills, files, names, tier, config, allowed).len() <= skills.len(),
        exists|k: int|
            0 <= k < summoned(skills, files, names, tier, config, allowed).len() && (
            #[trigger] summoned(skills, files, names, tier, config, allowed)[k]).aspect
                == skills[i].id@ && summoned(
                skills,
                files,
                names,
                tier,
                config,
                allowed,
            )[k].triggered_by == summons(skills[i], files, names, tier),
    decreases skills.len(),
{
    let all = summoned(skills, files, names, tier, config, allowed);
    let rest = summoned(skills.drop_last(), files, names, tier, config, allowed);
    lemma_summoned_few(skills.drop_last(), files, names, tier, config, allowed);
    if i < skills.len() - 1 {
        assert(skills.drop_last()[i] == skills[i]);
        lemma_summoned_all(skills.drop_last(), files, names, tier, config, allowed, i);
        let k = choose|k: int|
            0 <= k < rest.len() && (#[trigger] rest[k]).aspect == skills[i].id@
                && rest[k].triggered_by == summons(skills[i], files, names, tier);
        assert(all[k] == rest[k]);
    } else {
        assert(all[rest.len() as int].aspect == skills[i].id@);
    }
}

proof fn lemma_summoned_few(
    skills: Seq<SkillManifest>,
    files: Seq<FileChangeView>,
    names: Seq<Seq<char>>,
    tier: Tier,
    config: AutoreviewConfig,
    allowed: Option<Vec<String>>,
)
    ensures
        summoned(skills, files, names, tier, config, allowed).len() <= skills.len(),
    decreases skills.len(),
{
    if skills.len() > 0 {
        lemma_summoned_few(skills.drop_last(), files, names, tier, config, allowed);
    }
}

/// The smaller of what a signal is worth and its cap.
pub open spec fn at_most_cap(value: int, cap: Option<i64>, points: int) -> bool {
    match cap {
        Some(c) => points <= value && points <= c && (points == value || points == c),
        None => points == value,
    }
}

/// What signals are worth: a count times its rate, or a flag's points where the
/// flag is up, and the cap at most. Findings of analyzers count per thousand lines,
/// and are worth the least whole number of millionths that is no less.
pub proof fn signals_are_worth_their_rates(
    count: u64,
    rate: i64,
    cap: Option<i64>,
    there: bool,
    weight: SignalWeight,
    findings: u32,
    lines: u64,
)
    ensures
        at_most_cap(count * rate, cap, worth(count, Some(rate), cap)),
        worth(count, None, cap) == 0,
        weight.points matches Some(p) ==> flag_worth(there, weight) == if there {
            p as int
        } else {
            0
        },
        weight.points is None ==> flag_worth(there, weight) == 0,
        lines > 0 && rate > 0 && cap is None ==> {
            let points = density_worth(findings as nat, lines, Some(rate), cap);
            points * lines >= findings * 1000 * rate && (points - 1) * lines < findings * 1000
                * rate
        },
        rate > 0 && cap is None ==> density_worth(findings as nat, 0, Some(rate), cap)
            == findings * 1000 * rate,
        rate > 0 ==> (cap matches Some(c) ==> density_worth(findings as nat, lines, Some(rate), cap)
            <= c),
        rate <= 0 ==> density_worth(findings as nat, lines, Some(rate), cap) == 0,
        density_worth(findings as nat, lines, None, cap) == 0,
{
    let n = findings * 1000 * rate;
    if rate > 0 {
        assert(0 <= n <= i128::MAX) by (nonlinear_arith)
            requires
                n == findings * 1000 * rate,
                0 <= findings <= u32::MAX,
                0 < rate <= i64::MAX,
        ;
        if lines > 0 {
            let points = rounded_up(n, lines as int);
            rounding_decides_alike(n, lines as int, points);
            rounding_decides_alike(n, lines as int, points - 1);
        } else {
            assert(n % 1 == 0 && n / 1 == n);
        }
    }
}

/// The signals of a diff: each that is worth something is listed with its points,
/// and nothing else is.
pub proof fn every_signal_with_points_is_listed(
    facts: DiffFactsView,
    config: AutoreviewConfig,
    findings: nat,
    x: SignalScoreView,
)
    ensures
        ({
            let lines = at_most_u64(lines_in(facts.files));
            let w = |name: Seq<char>|
                if config.triage.signals@.contains_key(name) {
                    config.triage.signals@[name]
                } else {
                    no_weight()
                };
            let size = w("linesChanged"@);
            let width = w("filesChanged"@);
            let branches = w("complexityDelta"@);
            let density = w("analyzerDensity"@);
            let is = |name: Seq<char>, points: int, detail: Option<Seq<char>>|
                points > 0 && x.signal == name && x.points == points && x.detail == detail;
            signals_of(facts, config, findings).contains(x) <==> {
                ||| is("linesChanged"@, worth(lines, size.per_line, size.cap), None)
                ||| is(
                    "filesChanged"@,
                    worth(at_most_u64(facts.files.len()), width.per_file, width.cap),
                    None,
                )
                ||| is(
                    "sensitivePathHit"@,
                    flag_worth(facts.sensitive_path_hit, w("sensitivePathHit"@)),
                    Some(text::joined(facts.sensitive_paths, ", "@)),
                )
                ||| is(
                    "dependencyChange"@,
                    flag_worth(facts.dependency_change, w("dependencyChange"@)),
                    None,
                )
                ||| is(
                    "ciOrInfraChange"@,
                    flag_worth(facts.ci_or_infra_change, w("ciOrInfraChange"@)),
                    None,
                )
                ||| is(
                    "complexityDelta"@,
                    worth(facts.added_branch_keywords as u64, branches.per_branch, branches.cap),
                    None,
                )
                ||| is(
                    "noTestsWithSource"@,
                    flag_worth(facts.source_touched_without_tests, w("noTestsWithSource"@)),
                    None,
                )
                ||| findings > 0 && is(
                    "analyzerDensity"@,
                    density_worth(findings, lines, density.per_finding_per_kloc, density.cap),
                    Some(text::decimal_of(findings) + " finding(s)"@),
                )
            }
        }),
{
    let lines = at_most_u64(lines_in(facts.files));
    let by_lines = weight_or_none(config, "linesChanged"@);
    let by_files = weight_or_none(config, "filesChanged"@);
    let by_branches = weight_or_none(config, "complexityDelta"@);
    let by_density = weight_or_none(config, "analyzerDensity"@);
    let w1 = worth(lines, by_lines.per_line, by_lines.cap);
    let w2 = worth(at_most_u64(facts.files.len()), by_files.per_file, by_files.cap);
    let w3 = flag_worth(facts.sensitive_path_hit, weight_or_none(config, "sensitivePathHit"@));
    let w4 = flag_worth(facts.dependency_change, weight_or_none(config, "dependencyChange"@));
    let w5 = flag_worth(facts.ci_or_infra_change, weight_or_none(config, "ciOrInfraChange"@));
    let w6 = worth(facts.added_branch_keywords as u64, by_branches.per_branch, by_branches.cap);
    let w7 = flag_worth(
        facts.source_touched_without_tests,
        weight_or_none(config, "noTestsWithSource"@),
    );
    let w8 = density_worth(findings, lines, by_density.per_finding_per_kloc, by_density.cap);
    let d3 = Some(text::joined(facts.sensitive_paths, ", "@));
    let d8 = Some(text::decimal_of(findings) + " finding(s)"@);
    lemma_worth_fits(lines, by_lines.per_line, by_lines.cap);
    lemma_worth_fits(at_most_u64(facts.files.len()), by_files.per_file, by_files.cap);
    lemma_worth_fits(
        facts.added_branch_keywords as u64,
        by_branches.per_branch,
        by_branches.cap,
    );
    lemma_density_fits(findings, lines, by_density.per_finding_per_kloc, by_density.cap);
    let s1 = signal_with("linesChanged"@, w1, None);
    let s2 = signal_with("filesChanged"@, w2, None);
    let s3 = signal_with("sensitivePathHit"@, w3, d3);
    let s4 = signal_with("dependencyChange"@, w4, None);
    let s5 = signal_with("ciOrInfraChange"@, w5, None);
    let s6 = signal_with("complexityDelta"@, w6, None);
    let s7 = signal_with("noTestsWithSource"@, w7, None);
    let s8 = if findings > 0 {
        signal_with("analyzerDensity"@, w8, d8)
    } else {
        Seq::empty()
    };
    lemma_one_signal("linesChanged"@, w1, None, x);
    lemma_one_signal("filesChanged"@, w2, None, x);
    lemma_one_signal("sensitivePathHit"@, w3, d3, x);
    lemma_one_signal("dependencyChange"@, w4, None, x);
    lemma_one_signal("ciOrInfraChange"@, w5, None, x);
    lemma_one_signal("complexityDelta"@, w6, None, x);
    lemma_one_signal("noTestsWithSource"@, w7, None, x);
    lemma_one_signal("analyzerDensity"@, w8, d8, x);
    text::lemma_joined_contains(s1, s2, x);
    text::lemma_joined_contains(s1 + s2, s3, x);
    text::lemma_joined_contains(s1 + s2 + s3, s4, x);
    text::lemma_joined_contains(s1 + s2 + s3 + s4, s5, x);
    text::lemma_joined_contains(s1 + s2 + s3 + s4 + s5, s6, x);
    text::lemma_joined_contains(s1 + s2 + s3 + s4 + s5 + s6, s7, x);
    text::lemma_joined_contains(s1 + s2 + s3 + s4 + s5 + s6 + s7, s8, x);
    if findings == 0 {
        assert(!s8.contains(x));
    }
}

proof fn lemma_one_signal(
    signal: Seq<char>,
    points: int,
    detail: Option<Seq<char>>,
    x: SignalScoreView,
)
    requires
        points <= i128::MAX,
    ensures
        signal_with(signal, points, detail).contains(x) <==> points > 0 && x.signal == signal
            && x.points == points && x.detail == detail,
{
    let one = signal_with(signal, points, detail);
    if points > 0 {
        assert(one[0].points == points);
        if x.signal == signal && x.points == points && x.detail == detail {
            assert(one[0] == x);
        }
    }
}

/// The lines of a diff are those that its files add and delete, file by file.
pub proof fn lines_add_up(files: Seq<FileChangeView>, file: FileChangeView)
    ensures
        lines_in(Seq::<FileChangeView>::empty()) == 0,
        lines_in(files.push(file)) == lines_in(files) + file.additions + file.deletions,
        lines_in(files) <= u64::MAX ==> at_most_u64(lines_in(files)) == lines_in(files),
{
    assert(files.push(file).drop_last() =~= files);
}

/// What the caller insists on is written down, option by option.
pub proof fn overrides_are_written_down(overrides: PlanOverrides)
    ensures
        overrides.tier matches Some(t) ==> override_labels(overrides).contains("--tier="@ + t.label()),
        overrides.aspects matches Some(list) ==> override_labels(overrides).contains(
            "--aspects="@ + text::joined(text::views(list@), ","@),
        ),
        overrides.max_usd matches Some(usd) ==> override_labels(overrides).contains(
            "--max-usd="@ + text::millionths_of(usd as nat),
        ),
        override_labels(overrides).len() == (if overrides.tier is Some {
            1int
        } else {
            0
        }) + (if overrides.aspects is Some {
            1int
        } else {
            0
        }) + (if overrides.max_usd is Some {
            1int
        } else {
            0
        }),
        Tier::Quick.label() == "quick"@ && Tier::Standard.label() == "standard"@
            && Tier::Deep.label() == "deep"@,
{
    let labels = override_labels(overrides);
    let n = if overrides.tier is Some {
        1int
    } else {
        0
    };
    let m = if overrides.aspects is Some {
        n + 1
    } else {
        n
    };
    if overrides.tier is Some {
        assert(labels[0] == "--tier="@ + overrides.tier->0.label());
    }
    if overrides.aspects is Some {
        assert(labels[n] == "--aspects="@ + text::joined(
            text::views(overrides.aspects->0@),
            ","@,
        ));
    }
    if overrides.max_usd is Some {
        assert(labels[m] == "--max-usd="@ + text::millionths_of(overrides.max_usd->0 as nat));
    }
}

/// Specialists keep the order of the skills: one more skill adds its own entry behind
/// the others, or none; and of too many the first are kept.
pub proof fn the_first_skills_are_kept(
    skills: Seq<SkillManifest>,
    skill: SkillManifest,
    facts: DiffFactsView,
    config: AutoreviewConfig,
    findings: nat,
    overrides: PlanOverrides,
    names: Seq<Seq<char>>,
    tier: Tier,
)
    ensures
        ({
            let all = |s: Seq<SkillManifest>|
                summoned(s, facts.files, names, tier, config, overrides.aspects);
            let (was, is) = (all(skills), all(skills.push(skill)));
            ||| is == was
            ||| is.len() == was.len() + 1 && is.drop_last() == was && is.last().aspect == skill.id@
        }),
        ({
            let plan = plan_of(facts, config, skills, findings, overrides);
            let all = summoned(
                skills,
                facts.files,
                names_of(plan.signals),
                plan.tier,
                config,
                overrides.aspects,
            );
            &&& all.len() <= plan.budgets.max_agents ==> plan.specialists == all
            &&& all.len() > plan.budgets.max_agents ==> plan.specialists == all.take(
                plan.budgets.max_agents as int,
            )
        }),
{
    assert(skills.push(skill).drop_last() =~= skills);
    let was = summoned(skills, facts.files, names, tier, config, overrides.aspects);
    let is = summoned(skills.push(skill), facts.files, names, tier, config, overrides.aspects);
    if is.len() == was.len() + 1 {
        assert(is.drop_last() =~= was);
    }
    let plan = plan_of(facts, config, skills, findings, overrides);
    let all = summoned(
        skills,
        facts.files,
        names_of(plan.signals),
        plan.tier,
        config,
        overrides.aspects,
    );
    assert(all.take(all.len() as int) =~= all);
}

/// A plan tells the signals of its facts and their score.
pub proof fn plans_tell_their_signals(
    facts: DiffFactsView,
    config: AutoreviewConfig,
    skills: Seq<SkillManifest>,
    findings: nat,
    overrides: PlanOverrides,
)
    ensures
        plan_of(facts, config, skills, findings, overrides).signals == signals_of(
            facts,
            config,
            findings,
        ),
        points_in(signals_of(facts, config, findings)) <= i128::MAX ==> plan_of(
            facts,
            config,
            skills,
            findings,
            overrides,
        ).score == points_in(signals_of(facts, config, findings)),
        overrides.tier matches Some(t) ==> plan_of(facts, config, skills, findings, overrides).tier
            == t,
        overrides.aspects matches Some(list) ==> forall|k: int|
            0 <= k < plan_of(facts, config, skills, findings, overrides).specialists.len()
                ==> text::views(list@).contains(
                (#[trigger] plan_of(facts, config, skills, findings, overrides).specialists[k]).aspect,
            ),
{
    scores_are_never_negative(facts, config, findings);
    assert forall|k: int|
        0 <= k < plan_of(
            facts,
            config,
            skills,
            findings,
            overrides,
        ).specialists.len() implies aspect_allowed(
        overrides.aspects,
        (#[trigger] plan_of(facts, config, skills, findings, overrides).specialists[k]).aspect,
    ) by {
        specialists_are_summoned_and_allowed(facts, config, skills, findings, overrides, k);
    }
}

} // verus!
