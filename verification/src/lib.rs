//! A cooperative step-driven task scheduler with a verified core, together
//! with the resource-loading bookkeeping of the application built on it.
//!
//! The scheduler ([`runtime::Runtime`]) owns a ready queue, a parked-task
//! table, a wake-notification queue, a virtual clock and a timer registry,
//! and is driven exclusively by external calls to its `step` entry point:
//! each call advances the virtual clock, releases due timeouts, and resumes
//! ready computations in FIFO order until nothing is left to do. Its
//! behaviour is specified by a mathematical transition system
//! ([`model`]), the executable loop is proved to implement it, and the
//! scheduling guarantees (FIFO completion, in-step wake draining for nested
//! spawn/join, exact delay boundaries, harmless stray wakes, determinism)
//! are proved of the model in [`laws`].

use vstd::prelude::*;

pub mod join_handle;
pub mod laws;
pub mod model;
pub mod resources;
pub mod runtime;
pub mod task;
pub mod timer_future;

verus! {

/// Saturating addition on 64-bit virtual-time values: the virtual clock
/// never wraps around; it pins at the largest representable instant.
pub fn sat_add(a: u64, b: u64) -> (r: u64)
    ensures
        r == sat_add_spec(a, b),
{
    if b > u64::MAX - a {
        u64::MAX
    } else {
        a + b
    }
}

/// What `sat_add` returns: the mathematical sum, capped at `u64::MAX`.
pub open spec fn sat_add_spec(a: u64, b: u64) -> u64 {
    if a + b > u64::MAX {
        u64::MAX
    } else {
        (a + b) as u64
    }
}

} // verus!
