//! Code-review analysis: dataflow rules over small control-flow graphs, rule
//! and skill mining from review history, triage, and the bookkeeping around
//! them.

pub mod agents;
pub mod clusters;
pub mod dataflow;
pub mod digest;
pub mod globs;
pub mod langsupport;
pub mod names;
pub mod paths;
pub mod report;
pub mod rule_factory;
pub mod rule_packs;
pub mod schema;
pub mod skill_evolution;
pub mod skills;
pub mod spec_verify;
pub mod storage;
pub mod syntax;
pub mod text;
pub mod triage;
pub mod verify;
