//! Health reports that a stalled operator sends.
use vstd::prelude::*;

verus! {

/// The operator's status as reported to its supervisor.
pub enum HealthStatus {
    Running,
    Stalled,
    StalledWithError { error: String, hint: Option<String> },
}

/// A status change; with `should_halt`, the supervisor is to restart the operator.
pub struct HealthStatusUpdate {
    pub update: HealthStatus,
    pub should_halt: bool,
}

/// `context: cause`, the way an error chain reads flattened.
pub open spec fn with_context(context: Seq<char>, cause: Seq<char>) -> Seq<char> {
    context + ": "@ + cause
}

/// The report for a failed state operation: stalled with the error, described as
/// `context: cause`, and halting.
pub fn state_error_update(context: &str, cause: &str) -> (r: HealthStatusUpdate)
    ensures
        r.should_halt,
        r.update matches HealthStatus::StalledWithError { error, hint } && error@ == with_context(
            context@,
            cause@,
        ) && hint is None,
{
    proof {
        reveal_strlit(": ");
    }
    let mut error = String::from_str(context);
    error.append(": ");
    error.append(cause);
    HealthStatusUpdate {
        update: HealthStatus::StalledWithError { error, hint: None },
        should_halt: true,
    }
}

} // verus!
