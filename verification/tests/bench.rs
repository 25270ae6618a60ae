//! Benching a drafted rule.

use autoreview::rule_factory::bench::{benchable, run_bench, BenchCounts, BenchVerdict};

fn counts(positive: (usize, usize), negative: (usize, usize)) -> BenchCounts {
    BenchCounts {
        positive_total: positive.0,
        positive_matched: positive.1,
        negative_total: negative.0,
        negative_matched: negative.1,
        sampled_files: 0,
        sampled_matched: 0,
    }
}

#[test]
fn errors_when_no_rule_has_been_drafted() {
    let err = benchable(".autoreview/rules/candidates/missing-cluster/rule.yaml", false, "").unwrap_err();
    assert!(err.message().contains("no drafted rule"));
}

#[test]
fn needs_fixtures_when_no_test_files_are_supplied() {
    let report = run_bench("c1", counts((0, 0), (0, 0)));
    assert_eq!(report.verdict, BenchVerdict::NeedsFixtures);
    assert!(report.self_test.is_none());
}

#[test]
fn passes_self_test_when_fixtures_match_as_expected() {
    let report = run_bench("c1", counts((1, 1), (1, 0)));
    let self_test = report.self_test.unwrap();
    assert_eq!(self_test.positive_matched, 1);
    assert_eq!(self_test.negative_matched, 0);
    assert!(self_test.passed());
}

#[test]
fn fails_self_test_when_the_rule_misses_its_own_positive_fixture() {
    let report = run_bench("c1", counts((1, 0), (0, 0)));
    assert_eq!(report.verdict, BenchVerdict::SelfTestFailed);
}

#[test]
fn historical_precision_is_explicitly_reported_as_skipped() {
    let report = run_bench("c1", counts((0, 0), (0, 0)));
    assert!(report.historical_precision_skipped_reason.contains("does not retain"));
}
