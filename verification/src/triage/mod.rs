//! Triage: how much attention a diff gets.

pub mod budget;
pub mod classifier;
pub mod planner;
pub mod signals;
