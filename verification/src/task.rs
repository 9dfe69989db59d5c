//! The closed set of job variants that the pool accepts.

use vstd::prelude::*;

verus! {

/// A unit of work submitted to the pool. Tasks are immutable value
/// messages; ownership moves from the producer to exactly one consumer.
#[derive(Debug, PartialEq, Eq)]
pub enum Task {
    /// Emit the given text.
    Print(String),
    /// Add the two operands (wrapping on overflow) and emit the sum.
    Compute(u32, u32),
    /// Tell the receiving worker to stop its processing loop.
    Exit,
    /// Emit the given text as a song.
    Sing(String),
}

impl Task {
    /// True exactly on `Exit`, the signal for a worker to stop.
    pub fn is_exit(&self) -> (r: bool)
        ensures
            r <==> *self is Exit,
    {
        match self {
            Task::Exit => true,
            _ => false,
        }
    }
}

} // verus!
