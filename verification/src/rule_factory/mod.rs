//! The rule factory: recurring review findings become candidates for
//! deterministic rules, which are drafted, benched, run in shadow and promoted.

pub mod bench;
pub mod category_heuristics;
pub mod config_gap_report;
pub mod draft;
pub mod existing_rules;
pub mod mine;
pub mod mine_from_bitbucket_comments;
pub mod mine_from_bugfix_commits;
pub mod mine_from_code;
pub mod mine_from_comments;
pub mod mine_from_llm_patterns;
pub mod mine_from_suppressions;
pub mod shadow;
