//! Trusted view of the crossbeam channel that carries tasks to workers.

use vstd::prelude::*;
use crate::task::Task;

verus! {

/// The producer handle of a crossbeam channel.
#[verifier::external_type_specification]
#[verifier::external_body]
#[verifier::reject_recursive_types(T)]
pub struct ExSender<T>(crossbeam_channel::Sender<T>);

/// The consumer handle of a crossbeam channel.
#[verifier::external_type_specification]
#[verifier::external_body]
#[verifier::reject_recursive_types(T)]
pub struct ExReceiver<T>(crossbeam_channel::Receiver<T>);

/// The error a failed send reports: no live consumer handle was left, and
/// the task comes back to the caller untouched.
#[derive(Debug, PartialEq, Eq)]
pub struct SendFailure {
    pub task: Task,
}

/// Relies on crossbeam_channel::Sender::send: on an unbounded channel it
/// never blocks and fails only when every receiver has been dropped; the
/// error then carries the original message back.
#[verifier::external_body]
pub(crate) fn send_task(s: &crossbeam_channel::Sender<Task>, t: Task) -> (r: Result<
    (),
    SendFailure,
>)
    ensures
        r matches Err(f) ==> f.task == t,
{
    match s.send(t) {
        Ok(()) => Ok(()),
        Err(e) => Err(SendFailure { task: e.0 }),
    }
}

/// Relies on crossbeam_channel::Receiver::recv: blocks until a task is
/// available (returned as `Some`) or the channel is empty with every sender
/// dropped (`None`). Which task arrives depends on the other threads, so
/// nothing more is assumed of the result.
#[verifier::external_body]
pub(crate) fn recv_task(r: &crossbeam_channel::Receiver<Task>) -> (t: Option<Task>) {
    r.recv().ok()
}

} // verus!
