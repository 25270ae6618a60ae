//! What a review reports.

pub mod dedupe;
