//! The dispatcher's side: the plan of tasks to enqueue and the sends.

use vstd::prelude::*;
use crate::task::Task;
use crate::channel::SendFailure;
use crate::channel::send_task;

verus! {

/// The full sequence of tasks one dispatch enqueues: the payload in send
/// order, followed by one `Exit` per worker.
pub open spec fn dispatch_plan(payload: Seq<Task>, n_workers: nat) -> Seq<Task> {
    payload + Seq::new(n_workers, |i: int| Task::Exit)
}

/// What the dispatcher enqueues guarantees shutdown: a payload free of
/// `Exit`, followed by one `Exit` per worker, is a shutdown plan, so by the
/// delivery model every worker of the pool stops after such a dispatch.
pub proof fn lemma_dispatch_plan_is_shutdown(payload: Seq<Task>, n_workers: nat)
    requires
        0 < n_workers,
        forall|k: int| 0 <= k < payload.len() ==> !((#[trigger] payload[k]) is Exit),
    ensures
        crate::model::is_shutdown_plan(dispatch_plan(payload, n_workers), n_workers as int),
{
    let plan = dispatch_plan(payload, n_workers);
    assert forall|k: int|
        0 <= k < plan.len() implies ((#[trigger] plan[k]) is Exit <==> k >= plan.len()
        - n_workers) by {
        if k < payload.len() {
            assert(plan[k] == payload[k]);
        } else {
            assert(plan[k] == Seq::new(n_workers, |i: int| Task::Exit)[k - payload.len()]);
        }
    }
}

/// Sends every payload task in order, then one `Exit` task per worker, so
/// that each of the `n_workers` consumers competing for the shared queue can
/// observe a termination signal. Every send of the plan is attempted
/// independently: a failure (no live consumer) is recorded and the dispatch
/// goes on. A failed send reports back exactly the task it tried to deliver.
pub fn dispatch_all(s: &crossbeam_channel::Sender<Task>, payload: Vec<Task>, n_workers: usize)
    -> (results: Vec<Result<(), SendFailure>>)
    ensures
        results@.len() == payload@.len() + n_workers,
        forall|j: int|
            0 <= j < results@.len() ==> (#[trigger] results@[j] matches Err(f) ==> f.task
                == dispatch_plan(payload@, n_workers as nat)[j]),
{
    let ghost plan = dispatch_plan(payload@, n_workers as nat);
    let ghost orig = payload@;
    let mut tasks = payload;
    let mut results: Vec<Result<(), SendFailure>> = Vec::new();
    while tasks.len() > 0
        invariant
            results@.len() + tasks@.len() == orig.len(),
            tasks@ == orig.skip(results@.len() as int),
            forall|j: int|
                0 <= j < results@.len() ==> (#[trigger] results@[j] matches Err(f) ==> f.task
                    == orig[j]),
        decreases tasks@.len(),
    {
        let ghost sent_so_far = results@.len() as int;
        let t = tasks.remove(0);
        proof {
            assert(t == orig[sent_so_far]);
            assert(tasks@ =~= orig.skip(sent_so_far + 1));
        }
        let r = send_task(s, t);
        results.push(r);
    }
    let mut i: usize = 0;
    while i < n_workers
        invariant
            i <= n_workers,
            results@.len() == orig.len() + i,
            forall|j: int|
                0 <= j < orig.len() ==> (#[trigger] results@[j] matches Err(f) ==> f.task
                    == orig[j]),
            forall|j: int|
                orig.len() <= j < results@.len() ==> (#[trigger] results@[j] matches Err(f)
                    ==> f.task == Task::Exit),
        decreases n_workers - i,
    {
        let r = send_task(s, Task::Exit);
        results.push(r);
        i = i + 1;
    }
    proof {
        assert forall|j: int|
            0 <= j < results@.len() implies (#[trigger] results@[j] matches Err(f) ==> f.task
            == plan[j]) by {
            if j < orig.len() {
                assert(plan[j] == orig[j]);
            } else {
                assert(plan[j] == Task::Exit);
            }
        }
    }
    results
}

} // verus!
