//! Rules in shadow mode.

use autoreview::rule_factory::shadow::{
    classify_agreement, should_demote, should_promote, AgentFindingRef, Agreement, PromotionInputs,
};

fn passing_inputs() -> PromotionInputs {
    PromotionInputs { firings: 20, distinct_runs: 5, agent_agreed: 18, agent_disagreed: 2, user_fp_count: 0, days_since_valid_from: 7 }
}

#[test]
fn promotes_when_every_gate_clears() {
    assert!(should_promote(&passing_inputs()));
}

#[test]
fn does_not_promote_below_minimum_firings() {
    let mut inputs = passing_inputs();
    inputs.firings = 19;
    assert!(!should_promote(&inputs));
}

#[test]
fn does_not_promote_below_minimum_distinct_runs() {
    let mut inputs = passing_inputs();
    inputs.distinct_runs = 4;
    assert!(!should_promote(&inputs));
}

#[test]
fn does_not_promote_with_any_user_fp_feedback() {
    let mut inputs = passing_inputs();
    inputs.user_fp_count = 1;
    assert!(!should_promote(&inputs));
}

#[test]
fn does_not_promote_before_the_minimum_shadow_period() {
    let mut inputs = passing_inputs();
    inputs.days_since_valid_from = 6;
    assert!(!should_promote(&inputs));
}

#[test]
fn does_not_promote_below_the_agreement_ratio() {
    let mut inputs = passing_inputs();
    inputs.agent_agreed = 10;
    inputs.agent_disagreed = 10;
    assert!(!should_promote(&inputs));
}

#[test]
fn does_not_promote_on_zero_agreement_signal_even_with_high_firings() {
    let mut inputs = passing_inputs();
    inputs.agent_agreed = 0;
    inputs.agent_disagreed = 0;
    assert!(!should_promote(&inputs));
}

#[test]
fn demotes_at_exactly_three_fp_reports() {
    assert!(should_demote(3));
    assert!(!should_demote(2));
}

#[test]
fn classifies_agreement_when_agent_flags_the_same_spot() {
    let agents = vec![AgentFindingRef { category: "correctness", path: "a.go", line: 12 }];
    assert_eq!(classify_agreement("correctness", "a.go", 10, &agents), Agreement::Agreed);
}

#[test]
fn classifies_disagreement_when_agent_ran_but_missed_the_spot() {
    let agents = vec![AgentFindingRef { category: "correctness", path: "a.go", line: 100 }];
    assert_eq!(classify_agreement("correctness", "a.go", 10, &agents), Agreement::Disagreed);
}

#[test]
fn classifies_disagreement_when_agent_flagged_a_different_file() {
    let agents = vec![AgentFindingRef { category: "correctness", path: "b.go", line: 10 }];
    assert_eq!(classify_agreement("correctness", "a.go", 10, &agents), Agreement::Disagreed);
}

#[test]
fn classifies_no_signal_when_the_category_never_ran_this_turn() {
    let agents = vec![AgentFindingRef { category: "design", path: "a.go", line: 10 }];
    assert_eq!(classify_agreement("correctness", "a.go", 10, &agents), Agreement::NoSignal);
}

#[test]
fn classifies_no_signal_when_no_agents_ran_at_all() {
    assert_eq!(classify_agreement("correctness", "a.go", 10, &[]), Agreement::NoSignal);
}
