//! Planning a review.

use autoreview::schema::{
    AgentBudget, AutoreviewConfig, BudgetConfig, CostClass, ModelAlias, ModelNames, SignalWeight, SignalWeights,
    SkillManifest, SkillTriggers, Tier, TierBudget, TierBudgets, TierScores, TriageConfig,
};
use autoreview::triage::planner::{plan_review, score_diff_facts, tier_for_score, PlanOverrides};
use autoreview::triage::signals::{DiffFacts, FileChange, LanguageCount};

fn weight() -> SignalWeight {
    SignalWeight { per_line: None, per_file: None, per_branch: None, per_finding_per_kloc: None, points: None, cap: None }
}

fn config() -> AutoreviewConfig {
    let mut signals = SignalWeights::new();
    signals.insert("linesChanged".to_string(), SignalWeight { per_line: Some(50_000), cap: Some(30_000_000), ..weight() });
    signals.insert("filesChanged".to_string(), SignalWeight { per_file: Some(1_000_000), cap: Some(15_000_000), ..weight() });
    signals.insert("complexityDelta".to_string(), SignalWeight { per_branch: Some(500_000), cap: Some(15_000_000), ..weight() });
    signals.insert("analyzerDensity".to_string(), SignalWeight { per_finding_per_kloc: Some(500_000), cap: Some(15_000_000), ..weight() });
    signals.insert("sensitivePathHit".to_string(), SignalWeight { points: Some(30_000_000), ..weight() });
    signals.insert("dependencyChange".to_string(), SignalWeight { points: Some(10_000_000), ..weight() });
    signals.insert("ciOrInfraChange".to_string(), SignalWeight { points: Some(10_000_000), ..weight() });
    signals.insert("noTestsWithSource".to_string(), SignalWeight { points: Some(5_000_000), ..weight() });
    let tier = |max_agents: u32| TierBudget { max_agents, total_token_cap: 100_000, wall_clock_sec: 600, per_agent: AgentBudget { model: ModelAlias::Standard, max_turns: 8 } };
    AutoreviewConfig {
        triage: TriageConfig { signals, tiers: TierScores { quick: Some(20_000_000), standard: Some(50_000_000) } },
        budgets: BudgetConfig {
            tiers: TierBudgets { quick: tier(2), standard: tier(4), deep: tier(8) },
            models: ModelNames { cheap: "cheap".to_string(), standard: "standard".to_string(), deep: "deep".to_string() },
        },
    }
}

fn none() -> PlanOverrides {
    PlanOverrides { tier: None, aspects: None, max_usd: None }
}

fn make_facts(overrides: impl FnOnce(&mut DiffFacts)) -> DiffFacts {
    let mut facts = DiffFacts {
        repo_root: "/repo".into(),
        base_ref: "main~1".into(),
        head_ref: "main".into(),
        files: vec![FileChange { path: "src/main.go".into(), additions: 5, deletions: 0 }],
        languages: vec![LanguageCount { language: "go".to_string(), files: 1 }],
        sensitive_path_hit: false,
        sensitive_paths: vec![],
        dependency_change: false,
        ci_or_infra_change: false,
        tests_touched: false,
        source_touched_without_tests: true,
        added_branch_keywords: 0,
    };
    overrides(&mut facts);
    facts
}

fn make_skill(id: &str, cost_class: CostClass, triggers: SkillTriggers) -> SkillManifest {
    SkillManifest {
        id: id.into(),
        title: format!("{id} review"),
        version: "0.1.0".into(),
        categories: vec![id.into()],
        languages: vec!["*".into()],
        triggers,
        cost_class,
        output_contract: "findings-json-v1".into(),
    }
}

#[test]
fn empty_diff_scores_as_positive_zero_not_negative_zero() {
    let config = config();
    let facts = make_facts(|f| {
        f.files = vec![];
        f.source_touched_without_tests = false;
    });
    let (score, signals) = score_diff_facts(&facts, &config, 0);
    assert!(signals.is_empty());
    assert!(score == 0, "score should be +0.0, not -0.0");
}

#[test]
fn scores_a_tiny_uneventful_diff_into_quick_tier() {
    let config = config();
    let facts = make_facts(|f| {
        f.files = vec![FileChange { path: "src/util.go".into(), additions: 2, deletions: 1 }];
        f.source_touched_without_tests = false;
    });
    let (score, _) = score_diff_facts(&facts, &config, 0);
    assert_eq!(tier_for_score(score, &config), Tier::Quick);
}

#[test]
fn escalates_tier_when_sensitive_path_touched() {
    let config = config();
    let facts = make_facts(|f| {
        f.sensitive_path_hit = true;
        f.sensitive_paths = vec!["auth/login.go".into()];
    });
    let (score, signals) = score_diff_facts(&facts, &config, 0);
    assert!(signals.iter().any(|s| s.signal == "sensitivePathHit"));
    assert_ne!(tier_for_score(score, &config), Tier::Quick);
}

#[test]
fn respects_configured_per_signal_point_cap() {
    let config = config();
    let facts = make_facts(|f| {
        f.files = (0..500).map(|i| FileChange { path: format!("f{i}.go"), additions: 1, deletions: 0 }).collect();
    });
    let (_, signals) = score_diff_facts(&facts, &config, 0);
    let files_changed = signals.iter().find(|s| s.signal == "filesChanged").unwrap();
    let cap = config.triage.signals.get("filesChanged").unwrap().cap.unwrap();
    assert!(files_changed.points <= cap as i128);
}

#[test]
fn analyzer_findings_contribute_to_the_score_and_are_capped() {
    let config = config();
    let facts = make_facts(|_| {});

    let (baseline_score, baseline_signals) = score_diff_facts(&facts, &config, 0);
    assert!(!baseline_signals.iter().any(|s| s.signal == "analyzerDensity"));

    let (with_findings_score, with_findings_signals) = score_diff_facts(&facts, &config, 3);
    let density_signal = with_findings_signals.iter().find(|s| s.signal == "analyzerDensity").unwrap();
    let cap = config.triage.signals.get("analyzerDensity").unwrap().cap.unwrap();
    assert!(density_signal.points <= cap as i128);
    assert!(with_findings_score > baseline_score);
}

#[test]
fn does_not_summon_expensive_skill_in_quick_tier_without_strong_trigger() {
    let config = config();
    let facts = make_facts(|_| {});
    let skills = vec![make_skill("security", CostClass::Expensive, SkillTriggers { globs: vec![], signals: vec![], always: true })];
    let plan = plan_review(&facts, &config, &skills, 0, none());
    assert_eq!(plan.tier, Tier::Quick);
    assert!(!plan.specialists.iter().any(|s| s.aspect == "security"));
}

#[test]
fn summons_expensive_skill_in_quick_tier_when_triggered_by_strong_signal() {
    let mut config = config();
    config.triage.signals.insert("sensitivePathHit".to_string(), SignalWeight { points: Some(5_000_000), ..weight() });
    config.triage.tiers.quick = Some(50_000_000);

    let facts = make_facts(|f| {
        f.sensitive_path_hit = true;
        f.sensitive_paths = vec!["auth/login.go".into()];
    });
    let skills = vec![make_skill("security", CostClass::Expensive, SkillTriggers { globs: vec![], signals: vec!["sensitivePathHit".into()], always: false })];
    let plan = plan_review(&facts, &config, &skills, 0, none());

    assert_eq!(plan.tier, Tier::Quick);
    assert!(plan.specialists.iter().any(|s| s.aspect == "security"));
    assert!(plan.specialists.iter().find(|s| s.aspect == "security").unwrap().triggered_by.contains(&"signal:sensitivePathHit".to_string()));
}

#[test]
fn caps_specialists_at_tier_max_agents_budget() {
    let mut config = config();
    config.budgets.tiers.deep.max_agents = 2;
    let facts = make_facts(|_| {});
    let skills: Vec<SkillManifest> = ["a", "b", "c", "d"]
        .iter()
        .map(|id| make_skill(id, CostClass::Moderate, SkillTriggers { globs: vec![], signals: vec![], always: true }))
        .collect();
    let plan = plan_review(&facts, &config, &skills, 0, PlanOverrides { tier: Some(Tier::Deep), ..none() });
    assert_eq!(plan.specialists.len(), 2);
}

#[test]
fn applies_aspects_override_to_filter_specialists() {
    let config = config();
    let facts = make_facts(|_| {});
    let skills: Vec<SkillManifest> = ["security", "design", "style"]
        .iter()
        .map(|id| make_skill(id, CostClass::Moderate, SkillTriggers { globs: vec![], signals: vec![], always: true }))
        .collect();
    let plan = plan_review(&facts, &config, &skills, 0, PlanOverrides { tier: Some(Tier::Deep), aspects: Some(vec!["security".into()]), ..none() });
    assert_eq!(plan.specialists.iter().map(|s| s.aspect.clone()).collect::<Vec<_>>(), vec!["security".to_string()]);
}

#[test]
fn records_overrides_for_report_transparency() {
    let config = config();
    let facts = make_facts(|_| {});
    let plan = plan_review(&facts, &config, &[], 0, PlanOverrides { tier: Some(Tier::Deep), max_usd: Some(2_000_000), ..none() });
    assert!(plan.overrides.contains(&"--tier=deep".to_string()));
    assert!(plan.overrides.contains(&"--max-usd=2".to_string()));
}

#[test]
fn scores_add_up_signal_by_signal() {
    let config = config();
    let facts = make_facts(|f| {
        f.files = vec![
            FileChange { path: "a.go".into(), additions: 10, deletions: 2 },
            FileChange { path: "go.mod".into(), additions: 1, deletions: 0 },
        ];
        f.dependency_change = true;
        f.added_branch_keywords = 3;
    });
    let (score, signals) = score_diff_facts(&facts, &config, 0);
    let points = |name: &str| signals.iter().find(|s| s.signal == name).map(|s| s.points);
    assert_eq!(points("linesChanged"), Some(650_000));
    assert_eq!(points("filesChanged"), Some(2_000_000));
    assert_eq!(points("dependencyChange"), Some(10_000_000));
    assert_eq!(points("complexityDelta"), Some(1_500_000));
    assert_eq!(points("noTestsWithSource"), Some(5_000_000));
    assert_eq!(points("sensitivePathHit"), None);
    assert_eq!(score, 19_150_000);
    assert_eq!(tier_for_score(score, &config), Tier::Quick);
    assert_eq!(tier_for_score(20_000_000, &config), Tier::Quick);
    assert_eq!(tier_for_score(20_000_001, &config), Tier::Standard);
    assert_eq!(tier_for_score(50_000_001, &config), Tier::Deep);
}

#[test]
fn findings_only_raise_a_score() {
    let config = config();
    let facts = make_facts(|f| f.files = vec![FileChange { path: "a.go".into(), additions: 1_000, deletions: 0 }]);
    let scores: Vec<i128> = (0..5).map(|n| score_diff_facts(&facts, &config, n).0).collect();
    assert_eq!(scores[1] - scores[0], 500_000);
    assert!(scores.windows(2).all(|two| two[0] <= two[1] && two[0] >= 0));
}

#[test]
fn every_specialist_was_summoned() {
    let config = config();
    let facts = make_facts(|_| {});
    let skills = vec![
        make_skill("always", CostClass::Quick, SkillTriggers { globs: vec![], signals: vec![], always: true }),
        make_skill("by-glob", CostClass::Quick, SkillTriggers { globs: vec!["**/*.go".into()], signals: vec![], always: false }),
        make_skill("never", CostClass::Quick, SkillTriggers { globs: vec!["**/*.py".into()], signals: vec![], always: false }),
    ];
    let plan = plan_review(&facts, &config, &skills, 0, none());
    let seen: Vec<(&str, &Vec<String>)> = plan.specialists.iter().map(|s| (s.aspect.as_str(), &s.triggered_by)).collect();
    assert_eq!(seen.len(), 2);
    assert_eq!(seen[0], ("always", &vec!["always".to_string()]));
    assert_eq!(seen[1], ("by-glob", &vec!["glob:**/*.go".to_string()]));
    assert!(plan.specialists.len() <= plan.budgets.max_agents as usize);
}

#[test]
fn riskier_diffs_score_no_lower() {
    let config = config();
    let mut facts = make_facts(|f| f.source_touched_without_tests = false);
    let mut last = score_diff_facts(&facts, &config, 0).0;
    let steps: [fn(&mut DiffFacts); 5] = [
        |f| f.source_touched_without_tests = true,
        |f| f.added_branch_keywords = 40,
        |f| f.dependency_change = true,
        |f| f.sensitive_path_hit = true,
        |f| f.files.push(FileChange { path: "b.go".into(), additions: 900, deletions: 100 }),
    ];
    for step in steps {
        step(&mut facts);
        let score = score_diff_facts(&facts, &config, 0).0;
        assert!(score > last);
        last = score;
    }
    assert_eq!(tier_for_score(last, &config), Tier::Deep);
}

#[test]
fn the_least_share_of_a_point_is_listed_and_decides() {
    let mut config = config();
    config.triage.signals.insert("analyzerDensity".to_string(), SignalWeight { per_finding_per_kloc: Some(1), ..weight() });
    let with_lines = |n: u32| make_facts(|f| f.files = vec![FileChange { path: "a.go".into(), additions: n, deletions: 0 }]);
    let density = |n: u32| score_diff_facts(&with_lines(n), &config, 1).1.into_iter().find(|s| s.signal == "analyzerDensity").map(|s| s.points);
    assert_eq!(density(1), Some(1_000));
    assert_eq!(density(1_000), Some(1));
    assert_eq!(density(3_000), Some(1));
    assert_eq!(density(300), Some(4));
    let (without, _) = score_diff_facts(&with_lines(3_000), &config, 0);
    config.triage.tiers.quick = Some(without);
    assert_eq!(tier_for_score(score_diff_facts(&with_lines(3_000), &config, 0).0, &config), Tier::Quick);
    assert_ne!(tier_for_score(score_diff_facts(&with_lines(3_000), &config, 1).0, &config), Tier::Quick);
}
