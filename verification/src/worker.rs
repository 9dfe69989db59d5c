//! What one worker does with each task it receives.

use vstd::prelude::*;
use crate::task::Task;

verus! {

/// One observable event emitted by a worker, attributed to its identity.
#[derive(Debug, PartialEq, Eq)]
pub enum WorkerEvent {
    /// The worker printed the text of a `Print` task.
    Printed { id: usize, text: String },
    /// The worker computed the wrapping sum of a `Compute` task.
    Computed { id: usize, a: u32, b: u32, result: u32 },
    /// The worker sang the text of a `Sing` task.
    Sang { id: usize, text: String },
    /// The worker received `Exit` and stopped.
    Exited { id: usize },
}

/// The sum a `Compute(a, b)` task yields: `a + b` with wrapping
/// unsigned arithmetic, so `Compute(u32::MAX, 1)` yields `0`.
pub open spec fn wrapping_sum(a: u32, b: u32) -> u32 {
    if a + b > u32::MAX {
        (a + b - 0x1_0000_0000) as u32
    } else {
        (a + b) as u32
    }
}

/// The event a worker with the given identity emits for one received task.
pub open spec fn event_for(id: usize, t: Task) -> WorkerEvent {
    match t {
        Task::Print(text) => WorkerEvent::Printed { id, text },
        Task::Compute(a, b) => WorkerEvent::Computed { id, a, b, result: wrapping_sum(a, b) },
        Task::Exit => WorkerEvent::Exited { id },
        Task::Sing(text) => WorkerEvent::Sang { id, text },
    }
}

/// Adds the operands of a `Compute` task with wrapping semantics.
pub fn compute(a: u32, b: u32) -> (r: u32)
    ensures
        r == wrapping_sum(a, b),
{
    a.wrapping_add(b)
}

/// Processes one received task for the worker with the given identity:
/// yields the event the worker emits and whether it stops afterwards.
/// A worker stops exactly on an `Exit` task.
pub fn process_task(id: usize, task: Task) -> (r: (WorkerEvent, bool))
    ensures
        r.0 == event_for(id, task),
        r.1 <==> task is Exit,
{
    match task {
        Task::Print(text) => (WorkerEvent::Printed { id, text }, false),
        Task::Compute(a, b) => {
            let result = compute(a, b);
            (WorkerEvent::Computed { id, a, b, result }, false)
        },
        Task::Exit => (WorkerEvent::Exited { id }, true),
        Task::Sing(text) => (WorkerEvent::Sang { id, text }, false),
    }
}

/// One blocking step of a worker's processing loop: waits for a task on the
/// shared channel and processes it. Returns `None` when the channel is empty
/// with every producer gone, which also ends the loop; otherwise the emitted
/// event and whether the worker stops, which it does exactly on `Exit`.
/// Which task arrives is decided by the channel, so the contract holds of
/// every outcome: the event is what some received task yields.
pub fn worker_step(id: usize, rx: &crossbeam_channel::Receiver<Task>) -> (r: Option<
    (WorkerEvent, bool),
>)
    ensures
        r matches Some(s) ==> exists|t: Task| s.0 == event_for(id, t) && (s.1 <==> t is Exit),
{
    match crate::channel::recv_task(rx) {
        None => None,
        Some(task) => {
            let ghost received = task;
            let (event, stop) = process_task(id, task);
            proof {
                assert(event == event_for(id, received) && (stop <==> received is Exit));
            }
            Some((event, stop))
        },
    }
}

} // verus!
