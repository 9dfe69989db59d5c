//! A minimal worker-pool task dispatcher.
//!
//! Tasks are fanned out over an unbounded multi-producer/multi-consumer
//! channel to a fixed set of workers, which process tasks until each
//! receives an `Exit` task. The dispatcher enqueues a payload of ordinary
//! tasks followed by one `Exit` per worker, so that every worker observes
//! a termination signal.
//!
//! The channel itself is crossbeam's, trusted at a narrow boundary
//! (`channel`); what a worker does with each task (`worker`) and what the
//! dispatcher enqueues (`dispatch`) are verified, and the delivery
//! discipline of the pool — exactly-once, in order, shutdown guaranteed —
//! is proved over every schedule on a model of the shared queue (`model`).

pub mod channel;
pub mod dispatch;
pub mod model;
pub mod task;
pub mod worker;
