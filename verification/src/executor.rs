//! The round-robin executor.
//!
//! The tasks of one run are held as `Vec<Box<F>>`. `F` may be one task type,
//! or a trait object type, `dyn SimpleFuture<Output = T>`: then tasks of many
//! types stand in one collection, and all that they share is the type of
//! their result.

use crate::schedule::{
    lemma_longest, lemma_polled_to_completion, longest, pass_upto, passes, polls_of,
    round_robin_schedule,
};
use crate::simple_future::SimpleFuture;
use vstd::prelude::*;

verus! {

/// Every task of the collection is known to complete.
pub open spec fn all_complete<F: SimpleFuture + ?Sized>(tasks: Seq<Box<F>>) -> bool {
    forall|i: int| 0 <= i < tasks.len() ==> (#[trigger] tasks[i]).completes()
}

/// The result of each task, in the order of the tasks.
pub open spec fn outcomes<F: SimpleFuture + ?Sized>(tasks: Seq<Box<F>>) -> Seq<F::Output> {
    Seq::new(tasks.len(), |i: int| tasks[i].outcome())
}

/// For each task, the number of polls that bring it to completion: those
/// that answer "not yet" and the one that completes.
pub open spec fn polls_needed<F: SimpleFuture + ?Sized>(tasks: Seq<Box<F>>) -> Seq<nat> {
    Seq::new(tasks.len(), |i: int| tasks[i].pending_polls() + 1)
}

/// What the executor knows of task `i` once `k` passes are over. A filled
/// slot holds the task's result, and the task was completed by one of those
/// passes. An empty slot belongs to a task that every one of the `k` passes
/// has polled, and that needs more polls still.
spec fn slot_after<F: SimpleFuture + ?Sized>(
    start: Seq<Box<F>>,
    now: Seq<Box<F>>,
    slots: Seq<Option<F::Output>>,
    i: int,
    k: nat,
) -> bool {
    match slots[i] {
        Some(v) => v == start[i].outcome() && start[i].pending_polls() < k,
        None => {
            &&& now[i].completes()
            &&& now[i].pending_polls() + k == start[i].pending_polls()
            &&& now[i].outcome() == start[i].outcome()
        },
    }
}

/// Drives the tasks to completion and hands back their results together with
/// the order in which it polled them.
///
/// The executor works in passes. A pass visits the tasks in input order and
/// polls once each task that has not completed yet; a result is kept in the
/// slot of its task. The passes end when one has found every task complete.
///
/// The results come in the order of the tasks, whichever completes first, and
/// the polls follow [`round_robin_schedule`]: the ghost trace lists the index
/// of the polled task for every call of `poll` that was made. So each task is
/// polled until it completes and not once more.
pub fn run_round_robin<F: SimpleFuture + ?Sized>(input: Vec<Box<F>>) -> (res: (
    Vec<F::Output>,
    Ghost<Seq<int>>,
))
    requires
        all_complete(input@),
    ensures
        res.0@ == outcomes(input@),
        res.1@ == round_robin_schedule(polls_needed(input@)),
        forall|i: int|
            0 <= i < input@.len() ==> #[trigger] polls_of(res.1@, i) == input@[i].pending_polls()
                + 1,
{
    let ghost start = input@;
    let ghost needs = polls_needed(start);
    let mut tasks = input;
    let n = tasks.len();

    let mut slots: Vec<Option<F::Output>> = Vec::new();
    let mut i: usize = 0;
    while i < n
        invariant
            i <= n,
            slots.len() == i,
            forall|j: int| 0 <= j < i ==> slots[j] is None,
        decreases n - i,
    {
        slots.push(None);
        i += 1;
    }

    let ghost mut trace: Seq<int> = Seq::empty();
    let ghost mut k: nat = 0;
    let ghost mut open_slot: int = 0;
    let mut unfinished = n > 0;
    while unfinished
        invariant
            n == start.len(),
            tasks.len() == n,
            slots.len() == n,
            needs == polls_needed(start),
            trace == passes(needs, k),
            forall|j: int| 0 <= j < n ==> slot_after(start, tasks@, slots@, j, k),
            unfinished ==> 0 <= open_slot < n && slots[open_slot] is None,
            !unfinished ==> forall|j: int| 0 <= j < n ==> slots[j] is Some,
            k <= longest(needs),
        decreases longest(needs) - k,
    {
        proof {
            lemma_longest(needs);
            assert(slot_after(start, tasks@, slots@, open_slot, k));
            assert(needs[open_slot] > k);
        }
        unfinished = false;
        let ghost next: nat = k + 1;
        let mut i: usize = 0;
        while i < n
            invariant
                i <= n,
                next == k + 1,
                n == start.len(),
                tasks.len() == n,
                slots.len() == n,
                needs == polls_needed(start),
                trace == passes(needs, k) + pass_upto(needs, k, i as int),
                forall|j: int| 0 <= j < i ==> slot_after(start, tasks@, slots@, j, next),
                forall|j: int| i <= j < n ==> slot_after(start, tasks@, slots@, j, k),
                unfinished ==> 0 <= open_slot < i && slots[open_slot] is None,
                !unfinished ==> forall|j: int| 0 <= j < i ==> slots[j] is Some,
            decreases n - i,
        {
            let ghost before = tasks@;
            let ghost slots_before = slots@;
            assert(slot_after(start, before, slots_before, i as int, k));
            if slots[i].is_none() {
                let r = tasks[i].poll();
                proof {
                    trace = trace.push(i as int);
                }
                match r {
                    Some(v) => {
                        slots[i] = Some(v);
                    },
                    None => {
                        unfinished = true;
                        proof {
                            open_slot = i as int;
                        }
                    },
                }
            }
            assert forall|j: int| 0 <= j < i implies slot_after(start, tasks@, slots@, j, next) by {
                assert(slot_after(start, before, slots_before, j, next));
            }
            assert forall|j: int| i < j < n implies slot_after(start, tasks@, slots@, j, k) by {
                assert(slot_after(start, before, slots_before, j, k));
            }
            i += 1;
        }
        proof {
            k = next;
        }
    }

    proof {
        lemma_longest(needs);
        if n > 0 {
            let w = choose|i: int| 0 <= i < needs.len() && #[trigger] needs[i] == longest(needs);
            assert(slot_after(start, tasks@, slots@, w, k));
        }
        assert forall|j: int| 0 <= j < n implies slots[j] == Some(start[j].outcome()) by {
            assert(slot_after(start, tasks@, slots@, j, k));
        }
    }

    let mut out: Vec<F::Output> = Vec::new();
    let mut i: usize = 0;
    while i < n
        invariant
            i <= n,
            n == start.len(),
            slots.len() == n,
            out.len() == i,
            forall|j: int| 0 <= j < i ==> out[j] == start[j].outcome(),
            forall|j: int| i <= j < n ==> slots[j] == Some(start[j].outcome()),
        decreases n - i,
    {
        let slot = slots[i].take();
        out.push(slot.unwrap());
        i += 1;
    }
    assert forall|i: int| 0 <= i < n implies #[trigger] polls_of(trace, i)
        == start[i].pending_polls() + 1 by {
        lemma_polled_to_completion(needs, i);
    }
    (out, Ghost(trace))
}

/// Runs the tasks to completion, taking turns among them, and returns their
/// results in the order of the tasks, whichever of them completes first.
///
/// Every task must be known to complete: a task that never does would keep
/// the executor polling for ever. The polls are made as [`run_round_robin`]
/// makes them.
pub fn example_round_robin_executor<T, F: SimpleFuture<Output = T> + ?Sized>(
    input: Vec<Box<F>>,
) -> (out: Vec<T>)
    requires
        all_complete(input@),
    ensures
        out@ == outcomes(input@),
{
    run_round_robin(input).0
}

/// Two runs on the same tasks give the same results and poll in the same
/// order. The tasks need not even be the same: it is enough that they agree,
/// position by position, on the polls they need and on their outcome.
pub proof fn lemma_same_tasks_same_run<F, G>(a: Seq<Box<F>>, b: Seq<Box<G>>)
    where
        F: SimpleFuture + ?Sized,
        G: SimpleFuture<Output = F::Output> + ?Sized,
    requires
        a.len() == b.len(),
        forall|i: int| 0 <= i < a.len() ==> a[i].pending_polls() == b[i].pending_polls(),
        forall|i: int| 0 <= i < a.len() ==> a[i].outcome() == b[i].outcome(),
    ensures
        outcomes(a) == outcomes(b),
        round_robin_schedule(polls_needed(a)) == round_robin_schedule(polls_needed(b)),
{
    assert(polls_needed(a) =~= polls_needed(b));
}

/// The outline of a program that is built on tasks: make the tasks that can
/// run side by side, hand them to an executor that polls them by the chosen
/// strategy, wait until it is done, and build the control flow of the whole
/// program on that. The outline holds no step of its own.
pub fn fake_main() {
}

} // verus!
