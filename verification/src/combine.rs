//! The concurrent combinators: `join`, `try_join` and `select`.
//!
//! Each one is a pure constructor: it wraps an ordered field of simple
//! tasks into one composite task and performs no work.  Only the driver
//! makes the composite progress, polling every live child once per step
//! in the children's original order — the determinism behind the
//! tie-break rules.

use vstd::prelude::*;
use vstd::pervasive::unreached;
use crate::task::{
    collected, core_faults, core_outcome, fault_is_abandoned, has_failure, is_select_winner,
    lemma_select_winner_exists, select_winner, unfinished_fails, Core, SpecVal, State, Task,
    TaskError,
};

verus! {

/// Takes the cores out of a field of simple tasks, keeping their order.
#[verifier::loop_isolation(false)]
fn into_cores(tasks: Vec<Task>) -> (cores: Vec<Core>)
    requires
        forall|i: int| 0 <= i < tasks@.len() ==> (#[trigger] tasks@[i]).is_simple(),
    ensures
        cores@.len() == tasks@.len(),
        forall|i: int|
            0 <= i < tasks@.len() ==> tasks@[i].state == State::Simple(#[trigger] cores@[i]),
{
    let ghost ts0 = tasks@;
    let mut tasks = tasks;
    let n = tasks.len();
    let mut cores: Vec<Core> = Vec::new();
    let mut i: usize = 0;
    proof {
        assert(tasks@ =~= ts0.skip(0));
    }
    while i < n
        invariant
            0 <= i <= n,
            tasks@ == ts0.skip(i as int),
            cores@.len() == i as int,
            forall|k: int| 0 <= k < i ==> ts0[k].state == State::Simple(#[trigger] cores@[k]),
        decreases n - i,
    {
        proof {
            assert(tasks@[0] == ts0[i as int]);
            assert(tasks@.remove(0) =~= ts0.skip(i as int + 1));
        }
        let t = tasks.remove(0);
        let Task { state } = t;
        match state {
            State::Simple(c) => cores.push(c),
            _ => unreached(),
        }
        i = i + 1;
    }
    cores
}

/// A fresh slot for every child, none of them finished yet.
fn fresh_results(n: usize) -> (results: Vec<Option<u64>>)
    ensures
        results@.len() == n as int,
        forall|k: int| 0 <= k < n ==> (#[trigger] results@[k]) is None,
{
    let mut results: Vec<Option<u64>> = Vec::new();
    let mut i: usize = 0;
    while i < n
        invariant
            0 <= i <= n,
            results@.len() == i as int,
            forall|k: int| 0 <= k < i ==> (#[trigger] results@[k]) is None,
        decreases n - i,
    {
        results.push(None);
        i = i + 1;
    }
    results
}

/// Builds the task that drives every child concurrently — each child is
/// polled once per driver step until it finishes — and collects all the
/// values in the children's original order.  This join is infallible: a
/// child that could fail is a contract violation, excluded by the
/// driver's precondition.  Construction performs no work.
pub fn join(tasks: Vec<Task>) -> (t: Task)
    requires
        forall|i: int| 0 <= i < tasks@.len() ==> (#[trigger] tasks@[i]).is_simple(),
    ensures
        t.wf(),
        t.state is Join,
        (t.drivable() <==> forall|i: int|
            0 <= i < tasks@.len() ==> (#[trigger] tasks@[i]).drivable() && tasks@[i].outcome()
                is Ok),
        t.outcome() == Ok::<SpecVal, TaskError>(
            SpecVal::List(Seq::new(tasks@.len(), |i: int| tasks@[i].ok_num())),
        ),
{
    let ghost ts0 = tasks@;
    let n = tasks.len();
    let cores = into_cores(tasks);
    let results = fresh_results(n);
    let t = Task { state: State::Join { children: cores, results } };
    proof {
        let cs = t.state->Join_children@;
        let rs = t.state->Join_results@;
        if (forall|j: int|
            0 <= j < ts0.len() ==> (#[trigger] ts0[j]).drivable() && ts0[j].outcome() is Ok) {
            assert forall|i: int|
                0 <= i < cs.len() implies !core_faults(#[trigger] cs[i]) && core_outcome(cs[i])
                is Ok by {
                assert(ts0[i].drivable() && ts0[i].outcome() is Ok);
            }
        }
        if (forall|i: int|
            0 <= i < cs.len() ==> !core_faults(#[trigger] cs[i]) && core_outcome(cs[i]) is Ok) {
            assert forall|j: int|
                0 <= j < ts0.len() implies (#[trigger] ts0[j]).drivable() && ts0[j].outcome()
                is Ok by {
                assert(!core_faults(cs[j]) && core_outcome(cs[j]) is Ok);
            }
        }
        assert forall|i: int|
            0 <= i < ts0.len() implies collected(cs, rs)[i] == (#[trigger] ts0[i]).ok_num() by {
            assert(rs[i] is None);
            assert(ts0[i].state == State::Simple(cs[i]));
        }
        assert(collected(cs, rs) =~= Seq::new(ts0.len(), |i: int| ts0[i].ok_num()));
    }
    t
}

/// Builds the task that drives every child concurrently but stops at
/// the first failure in poll order: among the failing children, the one
/// finishing in the earliest step wins, and within one step the lowest
/// index; the remaining children are then not driven further.  When all
/// children succeed, all the values come back in original order.
/// Construction performs no work.
pub fn try_join(tasks: Vec<Task>) -> (t: Task)
    requires
        forall|i: int| 0 <= i < tasks@.len() ==> (#[trigger] tasks@[i]).is_simple(),
    ensures
        t.wf(),
        (t.state matches State::TryJoin { children, results } && children@.len() == tasks@.len()
            && (forall|i: int|
            0 <= i < tasks@.len() ==> tasks@[i].state == State::Simple(#[trigger] children@[i]))
            && (forall|i: int| 0 <= i < tasks@.len() ==> (#[trigger] results@[i]) is None)),
        ((forall|i: int| 0 <= i < tasks@.len() ==> (#[trigger] tasks@[i]).drivable())
            ==> t.drivable()),
        ((forall|i: int| 0 <= i < tasks@.len() ==> (#[trigger] tasks@[i]).outcome() is Ok)
            ==> t.outcome() == Ok::<SpecVal, TaskError>(
            SpecVal::List(Seq::new(tasks@.len(), |i: int| tasks@[i].ok_num())),
        )),
        ((exists|i: int|
            0 <= i < tasks@.len() && (#[trigger] tasks@[i]).drivable() && tasks@[i].outcome()
                is Err) ==> t.outcome() is Err),
{
    let ghost ts0 = tasks@;
    let n = tasks.len();
    let cores = into_cores(tasks);
    let results = fresh_results(n);
    let t = Task { state: State::TryJoin { children: cores, results } };
    proof {
        let cs = t.state->TryJoin_children@;
        let rs = t.state->TryJoin_results@;
        if (forall|j: int| 0 <= j < ts0.len() ==> (#[trigger] ts0[j]).drivable()) {
            assert forall|f: int|
                0 <= f < cs.len() && rs[f] is None && core_faults(
                    #[trigger] cs[f],
                ) implies fault_is_abandoned(cs, rs, f) by {
                assert(ts0[f].drivable());
                assert(!core_faults(cs[f]));
            }
        }
        if (forall|i: int| 0 <= i < ts0.len() ==> (#[trigger] ts0[i]).outcome() is Ok) {
            if has_failure(cs, rs) {
                let w = choose|k: int| unfinished_fails(cs, rs, k);
                assert(ts0[w].outcome() is Ok);
                assert(false);
            }
            assert forall|i: int|
                0 <= i < ts0.len() implies collected(cs, rs)[i] == (
            #[trigger] ts0[i]).ok_num() by {
                assert(rs[i] is None);
                assert(ts0[i].state == State::Simple(cs[i]));
            }
            assert(collected(cs, rs) =~= Seq::new(ts0.len(), |i: int| ts0[i].ok_num()));
        }
        if (exists|i: int|
            0 <= i < ts0.len() && (#[trigger] ts0[i]).drivable() && ts0[i].outcome() is Err) {
            let w = choose|i: int|
                0 <= i < ts0.len() && (#[trigger] ts0[i]).drivable() && ts0[i].outcome() is Err;
            assert(unfinished_fails(cs, rs, w));
        }
    }
    t
}

/// Builds the task that races its children: each live child is polled
/// once per driver step, in the children's original order, and the
/// first to reach a terminal state decides the whole outcome — on a
/// same-step tie the child with the lowest index wins.  The losing
/// children are abandoned at that moment: dropped, never polled again.
/// Construction performs no work.
pub fn select(tasks: Vec<Task>) -> (t: Task)
    requires
        forall|i: int| 0 <= i < tasks@.len() ==> (#[trigger] tasks@[i]).is_simple(),
        tasks@.len() > 0,
    ensures
        t.wf(),
        (t.state matches State::Select { children } && children@.len() == tasks@.len() && (
        forall|i: int|
            0 <= i < tasks@.len() ==> tasks@[i].state == State::Simple(
                #[trigger] children@[i],
            ))),
        ((forall|i: int| 0 <= i < tasks@.len() ==> (#[trigger] tasks@[i]).drivable())
            ==> t.drivable()),
{
    let ghost ts0 = tasks@;
    let cores = into_cores(tasks);
    let t = Task { state: State::Select { children: cores } };
    proof {
        let cs = t.state->Select_children@;
        lemma_select_winner_exists(cs, 0);
        let w = select_winner(cs);
        assert(is_select_winner(cs, w));
        if (forall|j: int| 0 <= j < ts0.len() ==> (#[trigger] ts0[j]).drivable()) {
            assert(ts0[w].drivable());
            assert(!core_faults(cs[w]));
        }
    }
    t
}

} // verus!
