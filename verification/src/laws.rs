//! General laws of the task core, stated over the same spec functions
//! that the executable functions' contracts use.

use vstd::prelude::*;
use crate::task::{
    core_outcome, core_steps, first_failure, is_first_failure, is_select_winner,
    lemma_first_failure_exists, lemma_first_failure_unique, lemma_select_winner_exists,
    lemma_select_winner_unique, op_ok, ops_result, select_winner, unfinished_fails, Op, SpecVal,
    State, Task, TaskError,
};

verus! {

/// Law: for every `n` below the numeric bound, the eagerly computed
/// leaf that holds `n + 1` and the deferred `map(leaf(n), Increment)`
/// drive to the same outcome, the number `n + 1`.
pub proof fn lemma_increment_agreement(eager: Task, lazy: Task, n: u64)
    requires
        n < u64::MAX,
        eager.is_value_leaf((n + 1) as u64, 0),
        lazy.is_mapped_leaf(n, Op::Increment, 0),
    ensures
        eager.wf() && eager.drivable(),
        lazy.wf() && lazy.drivable(),
        eager.outcome() == Ok::<SpecVal, TaskError>(SpecVal::Num((n + 1) as u64)),
        lazy.outcome() == eager.outcome(),
{
    match lazy.state {
        State::Simple(c) => {
            assert(c.ops@ == seq![Op::Increment]);
            assert(c.ops@[0] == Op::Increment);
            assert(op_ok(Op::Increment, n));
            assert(c.ops@.skip(1) =~= Seq::<Op>::empty());
            assert(ops_result((n + 1) as u64, c.ops@.skip(1)) == Some((n + 1) as u64));
            assert(ops_result(n, c.ops@) == Some((n + 1) as u64));
        },
        _ => {},
    }
}

/// Law: when every child of a `select` would finish in the very same
/// step, the race is decided by the tie-break alone, and the first
/// child's outcome is the outcome of the whole `select`.
pub proof fn lemma_select_lowest_index_wins(t: Task)
    requires
        t.state matches State::Select { children } && children@.len() > 0 && (forall|i: int|
            0 <= i < children@.len() ==> core_steps(#[trigger] children@[i]) == core_steps(
                children@[0],
            )),
    ensures
        t.state matches State::Select { children } ==> t.outcome() == (match core_outcome(
            children@[0],
        ) {
            Ok(v) => Ok::<SpecVal, TaskError>(SpecVal::Num(v)),
            Err(e) => Err::<SpecVal, TaskError>(e),
        }),
{
    match t.state {
        State::Select { children } => {
            let cs = children@;
            assert(is_select_winner(cs, 0));
            lemma_select_winner_exists(cs, 0);
            lemma_select_winner_unique(cs, select_winner(cs), 0);
        },
        _ => {},
    }
}

/// Law: a `try_join` with a still-undriven failing child ends in a
/// typed failure, wherever in the field that child stands.
pub proof fn lemma_try_join_failure_short_circuits(t: Task, i: int)
    requires
        t.state matches State::TryJoin { children, results } && unfinished_fails(
            children@,
            results@,
            i,
        ),
    ensures
        t.outcome() is Err,
{
}

/// Law: when child `w` is the failure a `try_join` observes first, the
/// whole `try_join` fails with exactly that child's error.
pub proof fn lemma_try_join_reports_first_error(t: Task, w: int)
    requires
        t.state matches State::TryJoin { children, results } && is_first_failure(
            children@,
            results@,
            w,
        ),
    ensures
        t.state matches State::TryJoin { children, results } ==> t.outcome() == Err::<
            SpecVal,
            TaskError,
        >(core_outcome(children@[w])->Err_0),
{
    match t.state {
        State::TryJoin { children, results } => {
            assert(unfinished_fails(children@, results@, w));
            lemma_first_failure_exists(children@, results@, w);
            lemma_first_failure_unique(
                children@,
                results@,
                first_failure(children@, results@),
                w,
            );
        },
        _ => {},
    }
}

/// Law: the first failure a `try_join` reports is itself a failing
/// child, and no failing child finishes before it.
pub proof fn lemma_first_failure_is_least(t: Task, w: int, j: int)
    requires
        t.state matches State::TryJoin { children, results } && is_first_failure(
            children@,
            results@,
            w,
        ) && unfinished_fails(children@, results@, j) && j < w,
    ensures
        t.state matches State::TryJoin { children, results } ==> core_steps(children@[w])
            < core_steps(children@[j]),
{
}

} // verus!
