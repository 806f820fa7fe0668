//! Tasks, completion messages, and the driver-facing action type.

use vstd::prelude::*;

verus! {

/// A task to run: either a whole stage (its systems run in parallel) or a
/// single oneshot system.
#[derive(Debug, Clone, Copy, PartialEq, Eq, Hash, Structural)]
pub enum Task {
    Stage(usize),
    Oneshot(usize),
}

/// How a oneshot system asks to be scheduled.  Only `Relaxed` — append the
/// oneshot to the back of the task queue, with no further synchronization —
/// is implemented by this core.
#[derive(Debug, Clone, Copy, PartialEq, Eq, Structural)]
pub enum ExecutionStrategy {
    Relaxed,
}

/// Errors surfaced by the scheduler core.
#[derive(Debug, Clone, Copy, PartialEq, Eq, Structural)]
pub enum SchedulerError {
    /// A oneshot declared a resource handle that was never interned.
    UnknownResourceInOneshot,
    /// A completion message named a task that is not in flight.
    UnexpectedCompletion,
}

/// A message sent from a running task back to the scheduler.
pub enum TaskMessage {
    /// A oneshot system with the given id completed.
    SystemComplete(usize),
    /// All systems in the stage with the given id completed.
    StageComplete(usize),
    /// Request to run a oneshot system with the given read and write
    /// resource handles.
    ScheduleOneshot {
        scheduling_system: usize,
        reads: Vec<u64>,
        writes: Vec<u64>,
        strategy: ExecutionStrategy,
    },
}

/// Context of a running system: the id under which the scheduler knows it.
/// The driver pairs it with a send endpoint for `TaskMessage`s.
#[derive(Debug, Clone, Copy, PartialEq, Eq, Structural)]
pub struct Context {
    /// The id of this system.
    pub id: usize,
}

/// What the dispatch loop asks its driver to do next.
#[derive(Debug, Clone, Copy, PartialEq, Eq, Structural)]
pub enum Action {
    /// Spawn every system of the given stage; a `StageComplete` message is
    /// owed when all of them finish.
    DispatchStage(usize),
    /// Spawn the oneshot system with the given id; a `SystemComplete`
    /// message is owed when it finishes.
    DispatchOneshot(usize),
    /// Block on the completion channel and hand the next message back.
    Wait,
    /// The dispatch is complete: the queue is empty and nothing is running.
    Done,
}

} // verus!
