use vstd::prelude::*;

verus! {

/// Why a timed step of the protocol was refused.
#[derive(Debug, Clone, Copy, PartialEq, Eq, Structural)]
pub enum VigieError {
    /// `start_period` was called before the current period was over.
    PeriodNotOver,
    /// `indirect_probe` was called before the probe timeout was reached.
    TimeoutNotReached,
}

impl VigieError {
    /// The human-readable description of the error.
    pub fn message(&self) -> (r: &'static str)
        ensures
            *self is PeriodNotOver ==> r@ == "The protocol period is not over yet"@,
            *self is TimeoutNotReached ==> r@ == "The timeout is not reached yet"@,
    {
        match self {
            VigieError::PeriodNotOver => "The protocol period is not over yet",
            VigieError::TimeoutNotReached => "The timeout is not reached yet",
        }
    }
}

} // verus!
