//! A verified model of the pool's delivery discipline.
//!
//! The channel hands the dispatcher's tasks out in send order; which worker
//! takes the next task is decided by the scheduler and is not reproducible.
//! `simulate_pool` runs that delivery under an arbitrary schedule, and its
//! contract pins down the pool's guarantees for every schedule: each task
//! goes to exactly one worker, in send order; a worker stops exactly on its
//! first `Exit`; and with at least one `Exit` per worker, every worker stops.

use vstd::prelude::*;
use crate::task::Task;

verus! {

/// How many tasks of the sequence are `Exit`.
pub open spec fn count_exits(s: Seq<Task>) -> int
    decreases s.len(),
{
    if s.len() == 0 {
        0
    } else {
        count_exits(s.drop_last()) + if s.last() is Exit {
            1int
        } else {
            0int
        }
    }
}

/// How many entries of the sequence are true.
pub open spec fn count_true(s: Seq<bool>) -> int
    decreases s.len(),
{
    if s.len() == 0 {
        0
    } else {
        count_true(s.drop_last()) + if s.last() {
            1int
        } else {
            0int
        }
    }
}

proof fn lemma_count_true_le(s: Seq<bool>)
    ensures
        0 <= count_true(s) <= s.len(),
    decreases s.len(),
{
    if s.len() > 0 {
        lemma_count_true_le(s.drop_last());
    }
}

proof fn lemma_count_true_none(s: Seq<bool>)
    requires
        forall|i: int| 0 <= i < s.len() ==> !s[i],
    ensures
        count_true(s) == 0,
    decreases s.len(),
{
    if s.len() > 0 {
        lemma_count_true_none(s.drop_last());
    }
}

proof fn lemma_count_true_full(s: Seq<bool>)
    requires
        count_true(s) == s.len(),
    ensures
        forall|i: int| 0 <= i < s.len() ==> s[i],
    decreases s.len(),
{
    if s.len() > 0 {
        lemma_count_true_le(s.drop_last());
        lemma_count_true_full(s.drop_last());
        assert forall|i: int| 0 <= i < s.len() implies s[i] by {
            if i < s.len() - 1 {
                assert(s.drop_last()[i]);
            }
        }
    }
}

proof fn lemma_count_true_exists_false(s: Seq<bool>)
    requires
        count_true(s) < s.len(),
    ensures
        exists|i: int| 0 <= i < s.len() && !s[i],
    decreases s.len(),
{
    if !s.last() {
        assert(0 <= s.len() - 1 < s.len() && !s[s.len() - 1]);
    } else {
        lemma_count_true_exists_false(s.drop_last());
        let i = choose|i: int| 0 <= i < s.drop_last().len() && !s.drop_last()[i];
        assert(0 <= i < s.len() && !s[i]);
    }
}

proof fn lemma_count_true_update(s: Seq<bool>, i: int, v: bool)
    requires
        0 <= i < s.len(),
    ensures
        count_true(s.update(i, v)) == count_true(s) - (if s[i] {
            1int
        } else {
            0int
        }) + (if v {
            1int
        } else {
            0int
        }),
    decreases s.len(),
{
    let t = s.update(i, v);
    if i == s.len() - 1 {
        assert(t.drop_last() =~= s.drop_last());
    } else {
        assert(t.drop_last() =~= s.drop_last().update(i, v));
        lemma_count_true_update(s.drop_last(), i, v);
    }
}

/// The positions (in send order) of the delivered tasks that the given
/// worker received, ascending: the worker's receive order.
pub open spec fn indices_of(assigned: Seq<usize>, w: usize) -> Seq<int>
    decreases assigned.len(),
{
    if assigned.len() == 0 {
        Seq::empty()
    } else if assigned.last() == w {
        indices_of(assigned.drop_last(), w).push(assigned.len() - 1)
    } else {
        indices_of(assigned.drop_last(), w)
    }
}

proof fn lemma_indices_of_sound(assigned: Seq<usize>, w: usize)
    ensures
        forall|j: int|
            0 <= j < indices_of(assigned, w).len() ==> 0 <= #[trigger] indices_of(assigned, w)[j]
                < assigned.len() && assigned[indices_of(assigned, w)[j]] == w,
    decreases assigned.len(),
{
    if assigned.len() > 0 {
        lemma_indices_of_sound(assigned.drop_last(), w);
        let pre = indices_of(assigned.drop_last(), w);
        assert forall|j: int|
            0 <= j < indices_of(assigned, w).len() implies 0 <= #[trigger] indices_of(assigned, w)[j]
            < assigned.len() && assigned[indices_of(assigned, w)[j]] == w by {
            if j < pre.len() {
                assert(indices_of(assigned, w)[j] == pre[j]);
                assert(assigned.drop_last()[pre[j]] == w);
            }
        }
    }
}

proof fn lemma_indices_of_complete(assigned: Seq<usize>, k: int)
    requires
        0 <= k < assigned.len(),
    ensures
        indices_of(assigned, assigned[k]).contains(k),
    decreases assigned.len(),
{
    let w = assigned[k];
    if k == assigned.len() - 1 {
        assert(indices_of(assigned, w).last() == k);
    } else {
        lemma_indices_of_complete(assigned.drop_last(), k);
        let pre = indices_of(assigned.drop_last(), w);
        let j = choose|j: int| 0 <= j < pre.len() && pre[j] == k;
        assert(indices_of(assigned, w)[j] == k);
    }
}

/// Exactly-once delivery: each delivered task stands in the receive order
/// of the one worker it was assigned to, and in no other worker's.
pub proof fn lemma_exactly_once(assigned: Seq<usize>, k: int)
    requires
        0 <= k < assigned.len(),
    ensures
        indices_of(assigned, assigned[k]).contains(k),
        forall|w: usize| w != assigned[k] ==> !indices_of(assigned, w).contains(k),
{
    lemma_indices_of_complete(assigned, k);
    assert forall|w: usize| w != assigned[k] implies !indices_of(assigned, w).contains(k) by {
        lemma_indices_of_sound(assigned, w);
        if indices_of(assigned, w).contains(k) {
            let j = choose|j: int|
                0 <= j < indices_of(assigned, w).len() && indices_of(assigned, w)[j] == k;
            assert(assigned[k] == w);
        }
    }
}

/// Order preservation: a worker's receive order lists strictly increasing
/// send positions — tasks are never reordered relative to each other — and
/// only positions assigned to that worker.
pub proof fn lemma_receive_order(assigned: Seq<usize>, w: usize)
    ensures
        forall|j1: int, j2: int|
            0 <= j1 < j2 < indices_of(assigned, w).len() ==> #[trigger] indices_of(assigned, w)[j1]
                < #[trigger] indices_of(assigned, w)[j2],
        forall|j: int|
            0 <= j < indices_of(assigned, w).len() ==> 0 <= #[trigger] indices_of(assigned, w)[j]
                < assigned.len() && assigned[indices_of(assigned, w)[j]] == w,
    decreases assigned.len(),
{
    lemma_indices_of_sound(assigned, w);
    if assigned.len() > 0 {
        lemma_receive_order(assigned.drop_last(), w);
        lemma_indices_of_sound(assigned.drop_last(), w);
        let pre = indices_of(assigned.drop_last(), w);
        assert forall|j1: int, j2: int|
            0 <= j1 < j2 < indices_of(assigned, w).len() implies #[trigger] indices_of(
            assigned,
            w,
        )[j1] < #[trigger] indices_of(assigned, w)[j2] by {
            if j2 < pre.len() {
                assert(indices_of(assigned, w)[j1] == pre[j1]);
                assert(indices_of(assigned, w)[j2] == pre[j2]);
            } else {
                assert(indices_of(assigned, w)[j1] == pre[j1]);
                assert(pre[j1] < assigned.len() - 1);
            }
        }
    }
}

proof fn lemma_count_exits_take_succ(s: Seq<Task>, d: int)
    requires
        0 <= d < s.len(),
    ensures
        count_exits(s.take(d + 1)) == count_exits(s.take(d)) + (if s[d] is Exit {
            1int
        } else {
            0int
        }),
{
    assert(s.take(d + 1).drop_last() =~= s.take(d));
    assert(s.take(d + 1).last() == s[d]);
}

/// A task sequence whose `Exit` tasks are exactly its last `n_workers`
/// entries: a payload free of `Exit`, then one `Exit` per worker, for a
/// pool of at least one worker.
pub open spec fn is_shutdown_plan(tasks: Seq<Task>, n_workers: int) -> bool {
    &&& 0 < n_workers <= tasks.len()
    &&& forall|k: int|
        0 <= k < tasks.len() ==> ((#[trigger] tasks[k]) is Exit <==> k >= tasks.len() - n_workers)
}

proof fn lemma_count_exits_positions(s: Seq<Task>, cut: int, d: int)
    requires
        0 <= cut <= s.len(),
        0 <= d <= s.len(),
        forall|k: int| 0 <= k < s.len() ==> ((#[trigger] s[k]) is Exit <==> k >= cut),
    ensures
        count_exits(s.take(d)) == if d <= cut {
            0int
        } else {
            d - cut
        },
    decreases d,
{
    if d > 0 {
        lemma_count_exits_positions(s, cut, d - 1);
        lemma_count_exits_take_succ(s, d - 1);
    } else {
        assert(s.take(0) =~= Seq::<Task>::empty());
    }
}

/// The index of some worker that has not stopped yet.
fn first_running(stopped: &Vec<bool>) -> (w: usize)
    requires
        exists|i: int| 0 <= i < stopped@.len() && !stopped@[i],
    ensures
        w < stopped@.len(),
        !stopped@[w as int],
{
    let mut i: usize = 0;
    while i < stopped.len()
        invariant
            i <= stopped@.len(),
            forall|j: int| 0 <= j < i ==> stopped@[j],
            exists|j: int| 0 <= j < stopped@.len() && !stopped@[j],
        decreases stopped@.len() - i,
    {
        if !stopped[i] {
            return i;
        }
        i = i + 1;
    }
    proof {
        let j = choose|j: int| 0 <= j < stopped@.len() && !stopped@[j];
        assert(stopped@[j]);
    }
    0
}

/// The outcome of one simulated pool run.
pub struct PoolRun {
    /// For each delivered task, by position in send order: the worker that
    /// received it.
    pub assigned: Vec<usize>,
    /// For each worker: whether it has stopped.
    pub stopped: Vec<bool>,
}

/// Runs the pool's delivery discipline under an arbitrary schedule: the
/// tasks go out one by one in send order, each to the scheduled worker if
/// that worker is still running, else to some running worker, until the
/// queue is drained or every worker has stopped. A worker stops exactly on
/// receiving `Exit`. The contract holds for every schedule:
/// exactly-once, in-order delivery; stop exactly on the first `Exit`
/// received; and guaranteed termination once enough `Exit` tasks are sent.
pub fn simulate_pool(tasks: &Vec<Task>, n_workers: usize, schedule: &Vec<usize>) -> (r: PoolRun)
    ensures
        r.stopped@.len() == n_workers,
        r.assigned@.len() <= tasks@.len(),
        forall|k: int| 0 <= k < r.assigned@.len() ==> (#[trigger] r.assigned@[k]) < n_workers,
        // a worker has stopped exactly when it received an Exit task
        forall|w: int|
            0 <= w < n_workers ==> ((#[trigger] r.stopped@[w]) <==> exists|k: int|
                0 <= k < r.assigned@.len() && r.assigned@[k] as int == w && tasks@[k] is Exit),
        // nothing is delivered to a worker after its Exit: only the last
        // task a worker receives can be an Exit
        forall|k1: int, k2: int|
            0 <= k1 < k2 < r.assigned@.len() && r.assigned@[k1] == r.assigned@[k2] ==> !(
            tasks@[k1] is Exit),
        // delivery goes on until the queue is drained or no worker is left
        r.assigned@.len() < tasks@.len() ==> (forall|w: int|
            0 <= w < n_workers ==> r.stopped@[w]),
        // guaranteed termination: at least one Exit per worker stops them all
        count_exits(tasks@) >= n_workers ==> (forall|w: int|
            0 <= w < n_workers ==> r.stopped@[w]),
        // a shutdown plan is drained completely and stops every worker
        is_shutdown_plan(tasks@, n_workers as int) ==> r.assigned@.len() == tasks@.len()
            && (forall|w: int| 0 <= w < n_workers ==> r.stopped@[w]),
{
    let mut assigned: Vec<usize> = Vec::new();
    let mut stopped: Vec<bool> = Vec::new();
    let mut nstopped: usize = 0;
    let mut setup: usize = 0;
    while setup < n_workers
        invariant
            stopped@.len() == setup,
            setup <= n_workers,
            forall|j: int| 0 <= j < setup ==> !stopped@[j],
        decreases n_workers - setup,
    {
        stopped.push(false);
        setup = setup + 1;
    }
    proof {
        lemma_count_true_none(stopped@);
        assert(tasks@.take(0) =~= Seq::<Task>::empty());
    }
    let mut delivered: usize = 0;
    while delivered < tasks.len() && nstopped < n_workers
        invariant
            stopped@.len() == n_workers,
            assigned@.len() == delivered,
            delivered <= tasks@.len(),
            nstopped == count_true(stopped@),
            nstopped <= n_workers,
            count_true(stopped@) == count_exits(tasks@.take(delivered as int)),
            forall|k: int| 0 <= k < delivered ==> (#[trigger] assigned@[k]) < n_workers,
            forall|w: int|
                0 <= w < n_workers ==> ((#[trigger] stopped@[w]) <==> exists|k: int|
                    0 <= k < delivered && assigned@[k] as int == w && tasks@[k] is Exit),
            forall|k1: int, k2: int|
                0 <= k1 < k2 < delivered && assigned@[k1] == assigned@[k2] ==> !(
                tasks@[k1] is Exit),
        decreases tasks@.len() - delivered,
    {
        let choice: usize = if delivered < schedule.len() {
            schedule[delivered]
        } else {
            0
        };
        let receiver: usize;
        if choice < n_workers && !stopped[choice] {
            receiver = choice;
        } else {
            proof {
                lemma_count_true_exists_false(stopped@);
            }
            receiver = first_running(&stopped);
        }
        let ghost pre_assigned = assigned@;
        let ghost pre_stopped = stopped@;
        let stops = tasks[delivered].is_exit();
        assigned.push(receiver);
        proof {
            lemma_count_exits_take_succ(tasks@, delivered as int);
        }
        if stops {
            stopped[receiver] = true;
            proof {
                lemma_count_true_update(pre_stopped, receiver as int, true);
            }
            nstopped = nstopped + 1;
        }
        delivered = delivered + 1;
        proof {
            let d = delivered as int;
            assert forall|w: int|
                0 <= w < n_workers implies ((#[trigger] stopped@[w]) <==> exists|k: int|
                0 <= k < d && assigned@[k] as int == w && tasks@[k] is Exit) by {
                if w == receiver as int && stops {
                    assert(assigned@[d - 1] as int == w && tasks@[d - 1] is Exit);
                } else {
                    assert(stopped@[w] == pre_stopped[w]);
                    if stopped@[w] {
                        let k = choose|k: int|
                            0 <= k < d - 1 && pre_assigned[k] as int == w && tasks@[k] is Exit;
                        assert(assigned@[k] as int == w && tasks@[k] is Exit);
                    }
                    if exists|k: int| 0 <= k < d && assigned@[k] as int == w && tasks@[k] is Exit {
                        let k = choose|k: int|
                            0 <= k < d && assigned@[k] as int == w && tasks@[k] is Exit;
                        if k < d - 1 {
                            assert(pre_assigned[k] as int == w && tasks@[k] is Exit);
                        }
                    }
                }
            }
            assert forall|k1: int, k2: int|
                0 <= k1 < k2 < d && assigned@[k1] == assigned@[k2] implies !(
            tasks@[k1] is Exit) by {
                if k2 == d - 1 {
                    assert(assigned@[k1] == receiver);
                    assert(!pre_stopped[receiver as int]);
                    assert(pre_assigned[k1] as int == receiver as int);
                }
            }
        }
    }
    proof {
        let d = delivered as int;
        let n = n_workers as int;
        assert forall|w: int|
            0 <= w < n_workers implies ((#[trigger] stopped@[w]) <==> exists|k: int|
            0 <= k < assigned@.len() && assigned@[k] as int == w && tasks@[k] is Exit) by {
            if stopped@[w] {
                let k = choose|k: int|
                    0 <= k < delivered && assigned@[k] as int == w && tasks@[k] is Exit;
                assert(0 <= k < assigned@.len() && assigned@[k] as int == w && tasks@[k] is Exit);
            }
            if exists|k: int|
                0 <= k < assigned@.len() && assigned@[k] as int == w && tasks@[k] is Exit {
                let k = choose|k: int|
                    0 <= k < assigned@.len() && assigned@[k] as int == w && tasks@[k] is Exit;
                assert(0 <= k < delivered && assigned@[k] as int == w && tasks@[k] is Exit);
            }
        }
        if nstopped == n_workers {
            lemma_count_true_full(stopped@);
        }
        if count_exits(tasks@) >= n {
            if d == tasks@.len() {
                assert(tasks@.take(d) =~= tasks@);
                lemma_count_true_le(stopped@);
                lemma_count_true_full(stopped@);
            }
        }
        if is_shutdown_plan(tasks@, n) {
            lemma_count_exits_positions(tasks@, tasks@.len() - n, d);
            if d < tasks@.len() {
                // every worker would have stopped, yet fewer than one Exit
                // per worker fits in a strict prefix of the plan
                assert(count_true(stopped@) == n_workers);
                lemma_count_true_full(stopped@);
                assert(count_exits(tasks@.take(d)) < n);
                assert(false);
            }
            assert(tasks@.take(d) =~= tasks@);
            assert(count_exits(tasks@) == n);
        }
    }
    PoolRun { assigned, stopped }
}

} // verus!
