//! The round-robin schedule as a mathematical object.
//!
//! A run is described by a sequence `needs`: entry `i` is the number of polls
//! that bring task `i` to completion, the completing poll included. The
//! schedule is the sequence of task indices in the order of their polls. It is
//! made of passes: pass `k` polls once, in input order, every task that the
//! `k` passes before it have not completed.

use vstd::prelude::*;

verus! {

/// The part of pass `k` that falls on the first `n` tasks: in input order,
/// those of them that need more than `k` polls.
pub open spec fn pass_upto(needs: Seq<nat>, k: nat, n: int) -> Seq<int>
    recommends
        0 <= n <= needs.len(),
    decreases n,
{
    if n <= 0 {
        Seq::empty()
    } else if needs[n - 1] > k {
        pass_upto(needs, k, n - 1).push(n - 1)
    } else {
        pass_upto(needs, k, n - 1)
    }
}

/// Pass `k`, counted from 0: one poll, in input order, for every task that
/// needs more than `k` polls.
pub open spec fn pass(needs: Seq<nat>, k: nat) -> Seq<int> {
    pass_upto(needs, k, needs.len() as int)
}

/// The first `k` passes, one after the other.
pub open spec fn passes(needs: Seq<nat>, k: nat) -> Seq<int>
    decreases k,
{
    if k == 0 {
        Seq::empty()
    } else {
        passes(needs, (k - 1) as nat) + pass(needs, (k - 1) as nat)
    }
}

/// The largest number of polls that any task needs; 0 where there is no task.
pub open spec fn longest(needs: Seq<nat>) -> nat
    decreases needs.len(),
{
    if needs.len() == 0 {
        0
    } else if needs.last() > longest(needs.drop_last()) {
        needs.last()
    } else {
        longest(needs.drop_last())
    }
}

/// The whole schedule: as many passes as the longest task needs polls.
pub open spec fn round_robin_schedule(needs: Seq<nat>) -> Seq<int> {
    passes(needs, longest(needs))
}

/// The number of polls of task `i` in `trace`.
pub open spec fn polls_of(trace: Seq<int>, i: int) -> nat
    decreases trace.len(),
{
    if trace.len() == 0 {
        0
    } else if trace.last() == i {
        polls_of(trace.drop_last(), i) + 1
    } else {
        polls_of(trace.drop_last(), i)
    }
}

/// The smaller of two numbers.
pub open spec fn at_most(a: nat, b: nat) -> nat {
    if a <= b {
        a
    } else {
        b
    }
}

/// No task needs more polls than the longest, and where there is a task, one
/// of them needs exactly that many.
pub proof fn lemma_longest(needs: Seq<nat>)
    ensures
        forall|i: int| 0 <= i < needs.len() ==> #[trigger] needs[i] <= longest(needs),
        needs.len() > 0 ==> exists|i: int| 0 <= i < needs.len() && #[trigger] needs[i] == longest(needs),
    decreases needs.len(),
{
    if needs.len() > 0 {
        let front = needs.drop_last();
        lemma_longest(front);
        assert forall|i: int| 0 <= i < needs.len() implies #[trigger] needs[i] <= longest(needs) by {
            if i < front.len() {
                assert(front[i] == needs[i]);
            }
        }
        if needs.last() > longest(front) || front.len() == 0 {
            assert(needs[needs.len() - 1] == longest(needs));
        } else {
            let w = choose|i: int| 0 <= i < front.len() && #[trigger] front[i] == longest(front);
            assert(needs[w] == longest(needs));
        }
    }
}

/// A pass polls tasks in input order, each at most once, and only tasks that
/// the passes before it have left unfinished.
pub proof fn lemma_pass_in_input_order(needs: Seq<nat>, k: nat, n: int)
    requires
        0 <= n <= needs.len(),
    ensures
        forall|p: int|
            0 <= p < pass_upto(needs, k, n).len() ==> 0 <= #[trigger] pass_upto(needs, k, n)[p] < n,
        forall|p: int|
            0 <= p < pass_upto(needs, k, n).len() ==> needs[#[trigger] pass_upto(needs, k, n)[p]]
                > k,
        forall|p: int, q: int|
            0 <= p < q < pass_upto(needs, k, n).len() ==> #[trigger] pass_upto(needs, k, n)[p]
                < #[trigger] pass_upto(needs, k, n)[q],
    decreases n,
{
    if n > 0 {
        lemma_pass_in_input_order(needs, k, n - 1);
        let front = pass_upto(needs, k, n - 1);
        let turn = pass_upto(needs, k, n);
        assert forall|p: int| 0 <= p < turn.len() implies 0 <= #[trigger] turn[p] < n && needs[turn[p]]
            > k by {
            if p < front.len() {
                assert(turn[p] == front[p]);
            }
        }
        assert forall|p: int, q: int| 0 <= p < q < turn.len() implies #[trigger] turn[p]
            < #[trigger] turn[q] by {
            assert(turn[p] == front[p]);
            if q < front.len() {
                assert(turn[q] == front[q]);
            }
        }
    }
}

/// A trace that does not hold task `i` counts no poll of it.
proof fn lemma_polls_of_absent(trace: Seq<int>, i: int)
    requires
        forall|p: int| 0 <= p < trace.len() ==> trace[p] != i,
    ensures
        polls_of(trace, i) == 0,
    decreases trace.len(),
{
    if trace.len() > 0 {
        lemma_polls_of_absent(trace.drop_last(), i);
    }
}

/// The polls of two traces in a row add up.
proof fn lemma_polls_of_concat(a: Seq<int>, b: Seq<int>, i: int)
    ensures
        polls_of(a + b, i) == polls_of(a, i) + polls_of(b, i),
    decreases b.len(),
{
    if b.len() == 0 {
        assert(a + b =~= a);
    } else {
        assert((a + b).drop_last() =~= a + b.drop_last());
        lemma_polls_of_concat(a, b.drop_last(), i);
    }
}

/// Pass `k` polls a task once if it needs more than `k` polls, else not at
/// all. With `n` short of the number of tasks, the same holds of the part of
/// the pass that falls on the first `n` tasks.
pub proof fn lemma_polls_of_pass(needs: Seq<nat>, k: nat, n: int, i: int)
    requires
        0 <= n <= needs.len(),
    ensures
        polls_of(pass_upto(needs, k, n), i) == if 0 <= i < n && needs[i] > k {
            1nat
        } else {
            0nat
        },
    decreases n,
{
    if n > 0 {
        lemma_polls_of_pass(needs, k, n - 1, i);
        let front = pass_upto(needs, k, n - 1);
        if needs[n - 1] > k {
            assert(front.push(n - 1).drop_last() =~= front);
        }
    }
}

/// After `k` passes a task has been polled `k` times, or as often as it
/// needs if that is less.
pub proof fn lemma_polls_after_passes(needs: Seq<nat>, k: nat, i: int)
    requires
        0 <= i < needs.len(),
    ensures
        polls_of(passes(needs, k), i) == at_most(k, needs[i]),
    decreases k,
{
    if k > 0 {
        let before = (k - 1) as nat;
        lemma_polls_after_passes(needs, before, i);
        lemma_polls_of_pass(needs, before, needs.len() as int, i);
        lemma_polls_of_concat(passes(needs, before), pass(needs, before), i);
    }
}

/// Every entry of the first `k` passes is the index of a task.
pub proof fn lemma_passes_hold_tasks(needs: Seq<nat>, k: nat)
    ensures
        forall|p: int|
            0 <= p < passes(needs, k).len() ==> 0 <= #[trigger] passes(needs, k)[p] < needs.len(),
    decreases k,
{
    if k > 0 {
        let before = (k - 1) as nat;
        lemma_passes_hold_tasks(needs, before);
        lemma_pass_in_input_order(needs, before, needs.len() as int);
        let done = passes(needs, before);
        let turn = pass(needs, before);
        assert forall|p: int| 0 <= p < passes(needs, k).len() implies 0 <= #[trigger] passes(
            needs,
            k,
        )[p] < needs.len() by {
            if p < done.len() {
                assert(passes(needs, k)[p] == done[p]);
            } else {
                assert(passes(needs, k)[p] == turn[p - done.len()]);
            }
        }
    }
}

/// No over-polling: the schedule polls every task exactly as often as the
/// task needs to complete, so never again after the poll that completed it.
/// And it polls nothing but the tasks.
pub proof fn lemma_polled_to_completion(needs: Seq<nat>, i: int)
    ensures
        0 <= i < needs.len() ==> polls_of(round_robin_schedule(needs), i) == needs[i],
        !(0 <= i < needs.len()) ==> polls_of(round_robin_schedule(needs), i) == 0,
{
    let k = longest(needs);
    lemma_longest(needs);
    lemma_passes_hold_tasks(needs, k);
    if 0 <= i < needs.len() {
        lemma_polls_after_passes(needs, k, i);
    } else {
        lemma_polls_of_absent(passes(needs, k), i);
    }
}

/// A trace holds no more polls of a task than it holds polls.
proof fn lemma_polls_of_bounded(trace: Seq<int>, i: int)
    ensures
        polls_of(trace, i) <= trace.len(),
    decreases trace.len(),
{
    if trace.len() > 0 {
        lemma_polls_of_bounded(trace.drop_last(), i);
    }
}

/// The run lasts at least as long as each of its tasks: the schedule holds
/// no fewer polls than any one task needs. A task that needs more polls than
/// some bound keeps the run going beyond that bound.
pub proof fn lemma_schedule_outlasts_task(needs: Seq<nat>, i: int)
    requires
        0 <= i < needs.len(),
    ensures
        round_robin_schedule(needs).len() >= needs[i],
{
    lemma_polled_to_completion(needs, i);
    lemma_polls_of_bounded(round_robin_schedule(needs), i);
}

/// Fairness of the first `k` passes: see [`lemma_fair_interleaving`].
proof fn lemma_fair_passes(needs: Seq<nat>, k: nat, at: int, other: int)
    requires
        0 <= at < passes(needs, k).len(),
        0 <= other < needs.len(),
    ensures
        polls_of(passes(needs, k).take(at), other) >= at_most(
            polls_of(passes(needs, k).take(at), passes(needs, k)[at]),
            needs[other],
        ),
    decreases k,
{
    if k > 0 {
        let before = (k - 1) as nat;
        let done = passes(needs, before);
        let turn = pass(needs, before);
        let all = passes(needs, k);
        if at < done.len() {
            assert(all.take(at) =~= done.take(at));
            lemma_fair_passes(needs, before, at, other);
        } else {
            let r = at - done.len();
            let polled = all[at];
            assert(all.take(at) =~= done + turn.take(r));
            lemma_pass_in_input_order(needs, before, needs.len() as int);
            lemma_polls_of_absent(turn.take(r), polled);
            lemma_polls_of_concat(done, turn.take(r), polled);
            lemma_polls_of_concat(done, turn.take(r), other);
            lemma_polls_after_passes(needs, before, polled);
            lemma_polls_after_passes(needs, before, other);
        }
    }
}

/// Fair interleaving: whenever the schedule polls a task, every other task
/// has by then been polled at least as often as that task, unless it has
/// completed with fewer polls. So no task gets its poll number `k + 1` before
/// every task that is still unfinished has had its poll number `k`.
///
/// `at` is a position in the schedule; the polls before it are
/// `round_robin_schedule(needs).take(at)`.
pub proof fn lemma_fair_interleaving(needs: Seq<nat>, at: int, other: int)
    requires
        0 <= at < round_robin_schedule(needs).len(),
        0 <= other < needs.len(),
    ensures
        polls_of(round_robin_schedule(needs).take(at), other) >= at_most(
            polls_of(round_robin_schedule(needs).take(at), round_robin_schedule(needs)[at]),
            needs[other],
        ),
{
    lemma_fair_passes(needs, longest(needs), at, other);
}

} // verus!
