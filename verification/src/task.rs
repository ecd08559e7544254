use vstd::prelude::*;

verus! {

/// A suspended computation: the scheduler's explicit, resumable shape of an
/// asynchronous job. A resume-check either completes it with a 64-bit value
/// or leaves it suspended, possibly rewritten into an in-flight form.
///
/// `Value`, `Sum`, `DelayFor`, `RaceDelays` and `SpawnJoin` are the forms a
/// caller builds; `WaitUntil`, `RaceUntil` and `AwaitTask` arise while a
/// computation is in flight (absolute deadlines and task ids are filled in
/// the first time the scheduler reaches the suspension point).
pub enum Computation {
    /// Completes at once with the value.
    Value(u64),
    /// Runs the left computation to completion, then the right one, and
    /// completes with the wrapping sum of the two results.
    Sum(Box<Computation>, Box<Computation>),
    /// Waits the given number of virtual nanoseconds, measured from the
    /// moment the computation first reaches this point, then continues.
    DelayFor(u64, Box<Computation>),
    /// Waits until the virtual clock reaches the absolute instant, then
    /// continues; the in-flight form of `DelayFor`.
    WaitUntil(u64, Box<Computation>),
    /// Waits for the earlier of two delays, both measured from the moment
    /// the computation first reaches this point, then continues.
    RaceDelays(u64, u64, Box<Computation>),
    /// Waits until the virtual clock reaches the earlier of two absolute
    /// instants; the in-flight form of `RaceDelays`.
    RaceUntil(u64, u64, Box<Computation>),
    /// Spawns the inner computation as a fresh task, waits for that task to
    /// finish, and completes with its result.
    SpawnJoin(Box<Computation>),
    /// Waits for the task with the given id to finish and completes with its
    /// result, consuming it; the in-flight form of `SpawnJoin`.
    AwaitTask(u64),
}

/// A unit of suspended, resumable work tracked by the scheduler: an identity
/// and the computation it still has to run.
pub struct Task {
    pub id: u64,
    pub comp: Computation,
}

/// Addition modulo `2^64`, the arithmetic with which `Computation::Sum`
/// combines its two results.
pub open spec fn wrap_add_spec(a: u64, b: u64) -> u64 {
    ((a + b) % 0x1_0000_0000_0000_0000) as u64
}

/// Executable counterpart of [`wrap_add_spec`].
pub fn wrap_add(a: u64, b: u64) -> (r: u64)
    ensures
        r == wrap_add_spec(a, b),
{
    if b > u64::MAX - a {
        proof {
            assert(a + b == (a - (u64::MAX - b) - 1) + 0x1_0000_0000_0000_0000);
        }
        a - (u64::MAX - b) - 1
    } else {
        a + b
    }
}

/// A computation that completes on its first resume-check, without ever
/// suspending: a value, or a nested composition of such computations.
pub open spec fn immediate(c: Computation) -> bool
    decreases c,
{
    match c {
        Computation::Value(_) => true,
        Computation::Sum(l, r) => immediate(*l) && immediate(*r),
        _ => false,
    }
}

/// The value with which an [`immediate`] computation completes.
pub open spec fn immediate_value(c: Computation) -> u64
    decreases c,
{
    match c {
        Computation::Value(v) => v,
        Computation::Sum(l, r) => wrap_add_spec(immediate_value(*l), immediate_value(*r)),
        _ => 0,
    }
}

/// Every task id the computation waits for was already handed out by an
/// allocator whose next id is `n`.
pub open spec fn awaits_below(c: Computation, n: u64) -> bool {
    forall|t: u64| #[trigger] awaits_task(c, t) ==> t < n
}

/// Whether the computation anywhere waits for the task with id `t`: such a
/// wait consumes the task's result when it takes it.
pub open spec fn awaits_task(c: Computation, t: u64) -> bool
    decreases c,
{
    match c {
        Computation::Value(_) => false,
        Computation::Sum(l, r) => awaits_task(*l, t) || awaits_task(*r, t),
        Computation::DelayFor(_, k) => awaits_task(*k, t),
        Computation::WaitUntil(_, k) => awaits_task(*k, t),
        Computation::RaceDelays(_, _, k) => awaits_task(*k, t),
        Computation::RaceUntil(_, _, k) => awaits_task(*k, t),
        Computation::SpawnJoin(inner) => awaits_task(*inner, t),
        Computation::AwaitTask(u) => u == t,
    }
}

} // verus!
