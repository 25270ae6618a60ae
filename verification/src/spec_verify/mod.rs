//! Acceptance criteria: what a change claims to do, read from a document, drafted
//! for a diff, and checked against the diff by an agent.

pub mod draft;
pub mod parse;
pub mod run;

pub use parse::parse_spec;
pub use run::run_spec_verify;
