//! What past reviews cost.

use autoreview::schema::CostEntry;
use autoreview::storage::cost_dashboard::{filter_since, oldest_first, summarize, NamedSum, RunCostRecord};

fn run(run_id: &str, created_at: &str, usd: Option<u64>, per_stage: Vec<(&str, u64)>) -> RunCostRecord {
    RunCostRecord {
        run_id: run_id.into(),
        created_at: created_at.into(),
        base_ref: "main~1".into(),
        head_ref: "main".into(),
        total: CostEntry { input_tokens: 100, output_tokens: 50, usd, wall_ms: 1000 },
        per_stage: per_stage.into_iter().map(|(name, usd)| (name.to_string(), CostEntry { input_tokens: 10, output_tokens: 5, usd: Some(usd), wall_ms: 100 })).collect(),
    }
}

fn sum(name: &str, usd: u128) -> NamedSum {
    NamedSum { name: name.to_string(), usd }
}

#[test]
fn loads_and_sorts_records_oldest_first() {
    let records = oldest_first(vec![
        run("run-2", "2026-07-13T00:00:00Z", Some(500_000), vec![]),
        run("run-1", "2026-07-12T00:00:00Z", Some(250_000), vec![]),
    ]);
    assert_eq!(records.len(), 2);
    assert_eq!(records[0].run_id, "run-1");
    assert_eq!(records[1].run_id, "run-2");
}

#[test]
fn filter_since_keeps_only_records_on_or_after_the_given_day() {
    let records = vec![run("a", "2026-07-10T00:00:00Z", None, vec![]), run("b", "2026-07-15T00:00:00Z", None, vec![])];
    let filtered = filter_since(&records, "2026-07-12");
    assert_eq!(filtered.len(), 1);
    assert_eq!(filtered[0].run_id, "b");
}

#[test]
fn summarize_sums_totals_and_reports_whether_any_run_had_usd() {
    let records = vec![
        run("run-1", "2026-07-12T00:00:00Z", Some(1_000_000), vec![("triage", 100_000), ("verify", 200_000)]),
        run("run-2", "2026-07-12T00:00:00Z", Some(2_000_000), vec![("triage", 300_000)]),
    ];
    let refs: Vec<&RunCostRecord> = records.iter().collect();
    let dashboard = summarize(&refs);
    assert_eq!(dashboard.run_count, 2);
    assert!(dashboard.any_usd_reported);
    assert_eq!(dashboard.total_usd, 3_000_000);
    assert_eq!(dashboard.total_input_tokens, 200);
    assert_eq!(dashboard.by_day_usd, vec![sum("2026-07-12", 3_000_000)]);
    assert_eq!(dashboard.by_stage_usd[0], sum("triage", 400_000));
    assert_eq!(dashboard.by_stage_usd[1], sum("verify", 200_000));
}

#[test]
fn summarize_with_no_usd_anywhere_reports_that_clearly() {
    let record = run("run-1", "2026-07-12T00:00:00Z", None, vec![]);
    let dashboard = summarize(&[&record]);
    assert!(!dashboard.any_usd_reported);
    assert_eq!(dashboard.total_usd, 0);
    assert_eq!(dashboard.total_input_tokens, 100, "token totals must still aggregate even with no usd reported");
}

#[test]
fn summarize_merges_same_day_totals_correctly_even_when_records_are_out_of_order() {
    let a = run("a", "2026-07-12T09:00:00Z", Some(1_000_000), vec![]);
    let b = run("b", "2026-07-13T09:00:00Z", Some(5_000_000), vec![]);
    let c = run("c", "2026-07-12T15:00:00Z", Some(2_000_000), vec![]);

    let dashboard = summarize(&[&a, &b, &c]);

    assert_eq!(
        dashboard.by_day_usd,
        vec![sum("2026-07-12", 3_000_000), sum("2026-07-13", 5_000_000)],
        "the two 07-12 records must merge into one $3.00 entry even though a 07-13 record sits between them in the input"
    );
}

#[test]
fn a_day_with_a_run_is_listed_though_no_price_was_reported() {
    let free = run("run-1", "2026-07-12T00:00:00Z", None, vec![]);
    let paid = run("run-2", "2026-07-13T00:00:00Z", Some(7), vec![]);
    let again = run("run-3", "2026-07-13T09:00:00Z", None, vec![]);
    assert_eq!(summarize(&[&free]).by_day_usd, vec![sum("2026-07-12", 0)]);
    assert_eq!(summarize(&[&paid, &free, &again]).by_day_usd, vec![sum("2026-07-12", 0), sum("2026-07-13", 7)]);
    assert!(summarize(&[]).by_day_usd.is_empty());
}
