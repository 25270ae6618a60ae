//! When a run has used up what it may cost.

use vstd::prelude::*;

verus! {

/// A run stops: there is a ceiling, a cost was reported, and it reaches the
/// ceiling.
pub open spec fn over_budget(total: u64, any_reported: bool, max: Option<u64>) -> bool {
    max is Some && any_reported && total >= max->Some_0
}

/// Whether a run stops launching specialists. Dollars are counted in millionths.
/// Without a ceiling, or while no backend has reported a cost, it does not.
pub fn should_stop_for_budget(total_usd_spent: u64, any_usd_reported: bool, max_usd: Option<u64>) -> (stop:
    bool)
    ensures
        stop == over_budget(total_usd_spent, any_usd_reported, max_usd),
{
    match max_usd {
        Some(max) => any_usd_reported && total_usd_spent >= max,
        None => false,
    }
}

/// A run that nobody measured is never stopped.
pub proof fn unmeasured_runs_go_on(total: u64, max: Option<u64>)
    ensures
        !over_budget(total, false, max),
{
}

/// Once a run stops, spending more does not start it again.
pub proof fn spending_more_never_resumes(total: u64, more: u64, any_reported: bool, max: Option<u64>)
    requires
        over_budget(total, any_reported, max),
        more >= total,
    ensures
        over_budget(more, any_reported, max),
{
}

/// A run stops where there is a limit, spending was reported and has reached it.
pub proof fn runs_stop_at_their_limit(total: u64, any_reported: bool, limit: u64)
    ensures
        any_reported && total >= limit ==> over_budget(total, any_reported, Some(limit)),
        total < limit ==> !over_budget(total, any_reported, Some(limit)),
        !over_budget(total, any_reported, None),
{
}

} // verus!
