//! Forward dataflow analysis over a small, language-agnostic control-flow
//! graph.

pub mod call_order;
pub mod cfg;
pub mod lattice;
pub mod lower;
pub mod name_facts;
pub mod rules;
pub mod solver;
pub mod summaries;
pub mod taint;
