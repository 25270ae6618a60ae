//! Budgets.

use autoreview::triage::budget::should_stop_for_budget;

#[test]
fn does_not_stop_when_no_ceiling_is_set() {
    assert!(!should_stop_for_budget(100000000, true, None));
}

#[test]
fn stops_once_spend_reaches_the_ceiling() {
    assert!(should_stop_for_budget(1000000, true, Some(1000000)));
}

#[test]
fn does_not_stop_below_the_ceiling() {
    assert!(!should_stop_for_budget(500000, true, Some(1000000)));
}

#[test]
fn fails_open_when_no_backend_has_reported_a_real_cost_yet() {
    assert!(!should_stop_for_budget(0, false, Some(1000000)), "unmeasured cost can't be honestly compared to a ceiling");
}
