//! Constructors for leaf tasks and the `map` combinator.
//!
//! Every function here only builds a value: no computation runs, no
//! fault can fire, until the driver polls the task.

use vstd::prelude::*;
use vstd::pervasive::unreached;
use crate::task::{
    op_ok, op_val, ops_result, Core, Op, Source, SpecVal, State, Task, TaskError,
};

verus! {

/// Pushing one transform onto the queue composes it after the rest.
proof fn lemma_ops_result_push(v: u64, s: Seq<Op>, op: Op)
    ensures
        ops_result(v, s.push(op)) == (match ops_result(v, s) {
            Some(r) => if op_ok(op, r) {
                Some(op_val(op, r))
            } else {
                None::<u64>
            },
            None => None::<u64>,
        }),
    decreases s.len(),
{
    if s.len() == 0 {
        assert(s.push(op)[0] == op);
        assert(s.push(op).skip(1) =~= Seq::<Op>::empty());
        assert(ops_result(v, s) == Some(v));
        if op_ok(op, v) {
            assert(ops_result(op_val(op, v), Seq::<Op>::empty()) == Some(op_val(op, v)));
        }
    } else {
        assert(s.push(op)[0] == s[0]);
        assert(s.push(op).skip(1) =~= s.skip(1).push(op));
        if op_ok(s[0], v) {
            lemma_ops_result_push(op_val(s[0], v), s.skip(1), op);
        }
    }
}

/// A leaf that is ready on its very first poll, producing `value`.
pub fn leaf_task(value: u64) -> (t: Task)
    ensures
        t.is_value_leaf(value, 0),
        t.wf(),
        t.drivable(),
        t.steps() == 1,
        t.outcome() == Ok::<SpecVal, TaskError>(SpecVal::Num(value)),
{
    Task { state: State::Simple(Core { delay: 0, source: Source::Value(value), ops: Vec::new() }) }
}

/// A leaf that reports `Pending` for `delay` polls — yielding control
/// back to the driver each time — before producing `value`.
pub fn deferred_task(value: u64, delay: u64) -> (t: Task)
    ensures
        t.is_value_leaf(value, delay),
        t.wf(),
        t.drivable(),
        t.steps() == delay + 1,
        t.outcome() == Ok::<SpecVal, TaskError>(SpecVal::Num(value)),
{
    Task {
        state: State::Simple(Core { delay, source: Source::Value(value), ops: Vec::new() }),
    }
}

/// Queues the pure transform `op` on `task`'s eventual value.  The new
/// task drives `task` and applies `op` within the poll that sees its
/// number; a typed failure passes through `op` untouched, so `op` runs
/// at most once, and only on success.  Construction performs no work.
pub fn map(task: Task, op: Op) -> (t: Task)
    requires
        task.is_simple(),
    ensures
        t.is_simple(),
        t.wf(),
        t.steps() == task.steps(),
        (task.state matches State::Simple(c) ==> (t.state matches State::Simple(c2)
            && c2.delay == c.delay && c2.source == c.source && c2.ops@ == c.ops@.push(op))),
        (t.drivable() <==> (task.drivable() && (task.outcome() is Ok ==> op_ok(
            op,
            task.ok_num(),
        )))),
        (t.drivable() && task.outcome() is Ok ==> t.outcome() == Ok::<SpecVal, TaskError>(
            SpecVal::Num(op_val(op, task.ok_num())),
        )),
        (t.drivable() && task.outcome() is Err ==> t.outcome() == task.outcome()),
{
    let Task { state } = task;
    match state {
        State::Simple(c) => {
            let ghost c0 = c;
            let mut c = c;
            c.ops.push(op);
            proof {
                match c0.source {
                    Source::Value(v) => lemma_ops_result_push(v, c0.ops@, op),
                    Source::CheckedAdd(x, y) => {
                        if x + y <= u8::MAX {
                            lemma_ops_result_push((x + y) as u64, c0.ops@, op);
                        }
                    },
                    Source::Fault => {},
                }
            }
            Task { state: State::Simple(c) }
        },
        _ => unreached(),
    }
}

/// The deferred increment: `map(leaf(n), Increment)`, computing `n + 1`
/// only when driven.
pub fn increment(n: u64) -> (t: Task)
    ensures
        t.is_mapped_leaf(n, Op::Increment, 0),
        t.wf(),
        t.steps() == 1,
        (t.drivable() <==> n < u64::MAX),
        (n < u64::MAX ==> t.outcome() == Ok::<SpecVal, TaskError>(SpecVal::Num((n + 1) as u64))),
{
    let lz = leaf_task(n);
    let ghost lz0 = lz;
    let t = map(lz, Op::Increment);
    proof {
        match lz0.state {
            State::Simple(c) => {
                assert(c.ops@ =~= Seq::<Op>::empty());
                assert(c.ops@.push(Op::Increment) =~= seq![Op::Increment]);
            },
            _ => {},
        }
    }
    t
}

/// The eager increment: the sum is computed now and wrapped in an
/// immediately ready leaf, which drives to the same value as
/// `increment(n)`.
pub fn increment_desugared(n: u64) -> (t: Task)
    requires
        n < u64::MAX,
    ensures
        t.is_value_leaf((n + 1) as u64, 0),
        t.wf(),
        t.drivable(),
        t.steps() == 1,
        t.outcome() == Ok::<SpecVal, TaskError>(SpecVal::Num((n + 1) as u64)),
{
    leaf_task(n + 1)
}

/// The checked addition task: produces `x + y` as its number when the
/// sum fits in a byte, and the `Overflow` failure otherwise.  Ready on
/// its first poll either way.
pub fn try_plus(x: u8, y: u8) -> (t: Task)
    ensures
        t.is_simple(),
        t.wf(),
        t.drivable(),
        t.steps() == 1,
        (x + y <= u8::MAX ==> t.outcome() == Ok::<SpecVal, TaskError>(
            SpecVal::Num((x + y) as u64),
        )),
        (x + y > u8::MAX ==> t.outcome() == Err::<SpecVal, TaskError>(TaskError::Overflow)),
{
    Task {
        state: State::Simple(Core { delay: 0, source: Source::CheckedAdd(x, y), ops: Vec::new() }),
    }
}

/// A task that would raise the unrecoverable fault if it were ever
/// driven.  Constructing it has no observable effect — the fault stays
/// inert until a poll would reach it, and the driver's contract refuses
/// such a task, keeping the fault out of every verified call.
pub fn faulty_task() -> (t: Task)
    ensures
        t.is_simple(),
        t.wf(),
        !t.drivable(),
        t.steps() == 1,
{
    Task { state: State::Simple(Core { delay: 0, source: Source::Fault, ops: Vec::new() }) }
}

/// A task whose only step is to drive a faulty task: as inert at
/// construction as the fault itself, and refused by the driver alike.
pub fn activate_faulty_task() -> (t: Task)
    ensures
        t.is_simple(),
        t.wf(),
        !t.drivable(),
{
    map(faulty_task(), Op::Identity)
}

} // verus!
