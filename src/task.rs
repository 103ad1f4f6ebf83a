//! Tasks of the cooperative executor.
use vstd::prelude::*;

pub mod simple_executor;

verus! {

/// A task, known by the number its spawner gave it; whoever runs the
/// executor keeps the work that the number stands for.
#[derive(Clone, Copy, Debug, PartialEq, Eq, Structural)]
pub struct Task {
    pub id: u64,
}

impl Task {
    pub fn new(id: u64) -> (r: Task)
        ensures
            r.id == id,
    {
        Task { id }
    }
}

} // verus!
