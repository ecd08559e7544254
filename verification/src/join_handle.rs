use vstd::prelude::*;

verus! {

/// The observer-side handle returned by `spawn`: it resolves once the
/// associated task's computation completes. The handle is one-shot: it
/// yields the task's value once, and is inert afterwards.
pub struct JoinHandle {
    pub task_id: u64,
    pub taken: bool,
}

impl JoinHandle {
    /// The id of the task this handle observes.
    pub fn id(&self) -> (r: u64)
        ensures
            r == self.task_id,
    {
        self.task_id
    }

    /// Whether this handle has already yielded its value.
    pub fn is_taken(&self) -> (r: bool)
        ensures
            r == self.taken,
    {
        self.taken
    }
}

} // verus!
