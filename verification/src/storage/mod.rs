//! The history of reviews.

pub mod cost_dashboard;
pub mod embeddings;
pub mod event_log;
pub mod history_store;
pub mod rule_lifecycle;
pub mod skill_versions;
pub mod sync;

pub use cost_dashboard::{
    filter_since as filter_cost_records_since, summarize as summarize_costs, CostDashboard,
    RunCostRecord,
};
pub use event_log::{events_from_report, feedback_event, EventRecord};
pub use history_store::{
    FindingLookup, FpFeedbackRow, HistoryStore, KnownVerdict, MinedFindingRow, RuleState,
    ShadowFiringRow,
};
