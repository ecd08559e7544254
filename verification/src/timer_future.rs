use vstd::prelude::*;

verus! {

/// A pending entry of the timer registry: when the virtual clock reaches
/// `deadline`, the scheduler sends a wake notification for task `task`.
pub struct Timeout {
    pub deadline: u64,
    pub task: u64,
}

/// A time-based suspension primitive: it resolves once the scheduler's
/// virtual clock reaches `deadline`. Created by [`crate::runtime::Runtime::delay`],
/// which fixes the deadline against the clock at the moment of the call.
pub struct TimerFuture {
    pub deadline: u64,
}

impl TimerFuture {
    /// The absolute virtual instant at which this delay resolves.
    pub fn deadline(&self) -> (r: u64)
        ensures
            r == self.deadline,
    {
        self.deadline
    }
}

} // verus!
