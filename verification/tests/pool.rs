//! Tests of the worker pool: task processing, dispatching over a real
//! crossbeam channel, and the delivery model.

use worker_pool::channel::SendFailure;
use worker_pool::dispatch::dispatch_all;
use worker_pool::model::simulate_pool;
use worker_pool::task::Task;
use worker_pool::worker::process_task;
use worker_pool::worker::worker_step;
use worker_pool::worker::WorkerEvent;
use worker_pool::worker::compute;

/// Runs one worker's receive loop to completion and returns its events.
fn run_worker(id: usize, receiver: &crossbeam_channel::Receiver<Task>) -> Vec<WorkerEvent> {
    let mut events = Vec::new();
    loop {
        match worker_step(id, receiver) {
            Some((event, stop)) => {
                events.push(event);
                if stop {
                    break;
                }
            }
            None => break,
        }
    }
    events
}

#[test]
fn compute_adds() {
    assert_eq!(compute(2, 3), 5);
    assert_eq!(compute(42, 27), 69);
    assert_eq!(compute(0, 0), 0);
}

#[test]
fn compute_wraps_on_overflow() {
    assert_eq!(compute(u32::MAX, 1), 0);
    assert_eq!(compute(u32::MAX, u32::MAX), u32::MAX - 1);
}

#[test]
fn process_print_task() {
    let (event, stop) = process_task(1, Task::Print("hi".into()));
    assert_eq!(
        event,
        WorkerEvent::Printed {
            id: 1,
            text: "hi".into()
        }
    );
    assert!(!stop);
}

#[test]
fn process_compute_task() {
    let (event, stop) = process_task(7, Task::Compute(40, 2));
    assert_eq!(
        event,
        WorkerEvent::Computed {
            id: 7,
            a: 40,
            b: 2,
            result: 42
        }
    );
    assert!(!stop);
}

#[test]
fn process_sing_task() {
    let (event, stop) = process_task(3, Task::Sing("A B C".into()));
    assert_eq!(
        event,
        WorkerEvent::Sang {
            id: 3,
            text: "A B C".into()
        }
    );
    assert!(!stop);
}

#[test]
fn process_exit_task_stops() {
    let (event, stop) = process_task(2, Task::Exit);
    assert_eq!(event, WorkerEvent::Exited { id: 2 });
    assert!(stop);
}

#[test]
fn task_is_exit() {
    assert!(Task::Exit.is_exit());
    assert!(!Task::Print("hi".into()).is_exit());
    assert!(!Task::Compute(1, 2).is_exit());
    assert!(!Task::Sing("la".into()).is_exit());
}

#[test]
fn scenario_three_workers() {
    let (sender, receiver) = crossbeam_channel::unbounded();
    let payload = vec![
        Task::Print("hi".into()),
        Task::Compute(2, 3),
        Task::Print("bye".into()),
    ];
    let results = dispatch_all(&sender, payload, 3);
    assert_eq!(results.len(), 6);
    assert!(results.iter().all(|r| r.is_ok()));

    // Consumers compete for the queue; run them one after another here.
    // The first drains the payload up to its Exit; the others get one
    // Exit each, so every worker stops.
    let events_1 = run_worker(1, &receiver);
    let events_2 = run_worker(2, &receiver);
    let events_3 = run_worker(3, &receiver);

    assert_eq!(
        events_1,
        vec![
            WorkerEvent::Printed {
                id: 1,
                text: "hi".into()
            },
            WorkerEvent::Computed {
                id: 1,
                a: 2,
                b: 3,
                result: 5
            },
            WorkerEvent::Printed {
                id: 1,
                text: "bye".into()
            },
            WorkerEvent::Exited { id: 1 },
        ]
    );
    assert_eq!(events_2, vec![WorkerEvent::Exited { id: 2 }]);
    assert_eq!(events_3, vec![WorkerEvent::Exited { id: 3 }]);

    // Every one of the five tasks was processed by exactly one worker.
    assert_eq!(events_1.len() + events_2.len() + events_3.len(), 6);
}

#[test]
fn send_after_receivers_dropped_fails_predictably() {
    let (sender, receiver) = crossbeam_channel::unbounded::<Task>();
    drop(receiver);
    let results = dispatch_all(&sender, vec![Task::Print("hi".into())], 2);
    assert_eq!(results.len(), 3);
    assert_eq!(
        results[0],
        Err(SendFailure {
            task: Task::Print("hi".into())
        })
    );
    assert_eq!(results[1], Err(SendFailure { task: Task::Exit }));
    assert_eq!(results[2], Err(SendFailure { task: Task::Exit }));
}

#[test]
fn worker_stops_on_disconnect() {
    let (sender, receiver) = crossbeam_channel::unbounded();
    let results = dispatch_all(&sender, vec![Task::Print("hi".into()), Task::Compute(1, 1)], 0);
    assert_eq!(results.len(), 2);
    assert!(results.iter().all(|r| r.is_ok()));
    drop(sender);
    // The worker drains the queue, then sees the disconnection and stops
    // without an Exit task: the normal termination path.
    let events = run_worker(1, &receiver);
    assert_eq!(
        events,
        vec![
            WorkerEvent::Printed {
                id: 1,
                text: "hi".into()
            },
            WorkerEvent::Computed {
                id: 1,
                a: 1,
                b: 1,
                result: 2
            },
        ]
    );
    assert!(worker_step(1, &receiver).is_none());
}

#[test]
fn model_round_robin_schedule() {
    let tasks = vec![
        Task::Print("hi".into()),
        Task::Compute(2, 3),
        Task::Print("bye".into()),
        Task::Exit,
        Task::Exit,
        Task::Exit,
    ];
    let run = simulate_pool(&tasks, 3, &vec![0, 1, 2, 0, 1, 2]);
    assert_eq!(run.assigned, vec![0, 1, 2, 0, 1, 2]);
    assert_eq!(run.stopped, vec![true, true, true]);
}

#[test]
fn model_greedy_schedule() {
    let tasks = vec![
        Task::Print("hi".into()),
        Task::Compute(2, 3),
        Task::Print("bye".into()),
        Task::Exit,
        Task::Exit,
        Task::Exit,
    ];
    // Worker 0 grabs everything until it stops on the first Exit; the
    // remaining Exit tasks go to the other workers, so all stop.
    let run = simulate_pool(&tasks, 3, &vec![0, 0, 0, 0, 0, 0]);
    assert_eq!(run.assigned, vec![0, 0, 0, 0, 1, 2]);
    assert_eq!(run.stopped, vec![true, true, true]);
}

#[test]
fn model_too_few_exits_hangs_a_worker() {
    let tasks = vec![Task::Print("hi".into()), Task::Exit];
    let run = simulate_pool(&tasks, 2, &vec![0, 0]);
    assert_eq!(run.assigned, vec![0, 0]);
    // The queue drained but the second worker never saw an Exit.
    assert_eq!(run.stopped, vec![true, false]);
}

#[test]
fn model_ignores_invalid_schedule_entries() {
    let tasks = vec![Task::Exit, Task::Exit];
    let run = simulate_pool(&tasks, 2, &vec![99, 99]);
    assert_eq!(run.assigned, vec![0, 1]);
    assert_eq!(run.stopped, vec![true, true]);
}

#[test]
fn model_empty_schedule_still_delivers() {
    let tasks = vec![Task::Exit];
    let run = simulate_pool(&tasks, 1, &Vec::new());
    assert_eq!(run.assigned, vec![0]);
    assert_eq!(run.stopped, vec![true]);
}

#[test]
fn model_no_workers_delivers_nothing() {
    let tasks = vec![Task::Print("hi".into())];
    let run = simulate_pool(&tasks, 0, &Vec::new());
    assert_eq!(run.assigned, Vec::<usize>::new());
    assert_eq!(run.stopped, Vec::<bool>::new());
}
