//! The task data model and its mathematical meaning.
//!
//! A `Task` is a computation in waiting: constructing one performs no
//! work, and driving one consumes it.  The spec functions here give every
//! task a deterministic meaning — how many polls it needs (`steps`),
//! whether driving it would raise the unrecoverable fault (`drivable`),
//! and which terminal result it reaches (`outcome`).

use vstd::prelude::*;

verus! {

/// The typed, recoverable failure a task can report.
#[derive(Clone, Copy, Debug, PartialEq, Eq, Structural)]
pub enum TaskError {
    /// A bounded addition overflowed its numeric type.
    Overflow,
}

/// A finished value: one number for a leaf, a mapped task or a `select`
/// winner; an ordered list of numbers for `join` and `try_join`.
#[derive(Debug, PartialEq, Eq)]
pub enum Val {
    Num(u64),
    List(Vec<u64>),
}

/// The mathematical shape of a finished value.
pub enum SpecVal {
    Num(u64),
    List(Seq<u64>),
}

impl View for Val {
    type V = SpecVal;

    open spec fn view(&self) -> SpecVal {
        match self {
            Val::Num(n) => SpecVal::Num(*n),
            Val::List(l) => SpecVal::List(l@),
        }
    }
}

/// What a leaf computes once its delay has elapsed.
#[derive(Clone, Copy, Debug)]
pub enum Source {
    /// A number that is already known.
    Value(u64),
    /// A bounded addition of two bytes; overflow is the typed failure.
    CheckedAdd(u8, u8),
    /// An unrecoverable fault: a programming-error-class event.  Driving
    /// a task that reaches it would abort the calling context, so the
    /// driver's contract refuses such tasks; constructing one is inert.
    Fault,
}

/// A pure transform queued on a task's successful number by `map`.
/// A transform that overflows is fault-class (unchecked arithmetic in
/// the deferred computation), not a typed failure.
#[derive(Clone, Copy, Debug)]
pub enum Op {
    Identity,
    Increment,
    Square,
}

/// A leaf computation, the polls still owed before it runs, and the
/// transforms queued on top of its result.
pub struct Core {
    pub delay: u64,
    pub source: Source,
    pub ops: Vec<Op>,
}

/// One poll's report.  A terminal poll consumes the task: only `Pending`
/// hands the task back, so a finished task can never be driven again.
pub enum Polled {
    Pending(Task),
    Ready(Val),
    Failed(TaskError),
}

/// A lazy, single-use computation.
pub struct Task {
    pub state: State,
}

pub enum State {
    /// A leaf, possibly transformed by `map`.
    Simple(Core),
    /// Drive every child to completion; collect all values in order.
    Join { children: Vec<Core>, results: Vec<Option<u64>> },
    /// Like `Join`, but stop at the first failing child.
    TryJoin { children: Vec<Core>, results: Vec<Option<u64>> },
    /// Report the first child to finish; abandon the rest.
    Select { children: Vec<Core> },
}

/// Whether `op` can be applied to `v` without overflowing.
pub open spec fn op_ok(op: Op, v: u64) -> bool {
    match op {
        Op::Identity => true,
        Op::Increment => v < u64::MAX,
        Op::Square => v <= 0xFFFF_FFFF,
    }
}

/// The number `op` turns `v` into.
pub open spec fn op_val(op: Op, v: u64) -> u64
    recommends
        op_ok(op, v),
{
    match op {
        Op::Identity => v,
        Op::Increment => (v + 1) as u64,
        Op::Square => (v * v) as u64,
    }
}

/// Folds the queued transforms over a number, first queued first.
/// `None` means a transform overflowed, which is fault-class.
pub open spec fn ops_result(v: u64, ops: Seq<Op>) -> Option<u64>
    decreases ops.len(),
{
    if ops.len() == 0 {
        Some(v)
    } else if op_ok(ops[0], v) {
        ops_result(op_val(ops[0], v), ops.skip(1))
    } else {
        None
    }
}

/// Everything about driving one core to its end: `None` marks the fault
/// class, `Some(Ok(v))` a successful number, `Some(Err(e))` a typed
/// failure.  Transforms apply only to a successful number; a typed
/// failure passes through them unchanged.
pub open spec fn core_result(c: Core) -> Option<Result<u64, TaskError>> {
    match c.source {
        Source::Fault => None,
        Source::Value(v) => match ops_result(v, c.ops@) {
            Some(r) => Some(Ok(r)),
            None => None,
        },
        Source::CheckedAdd(x, y) => if x + y <= u8::MAX {
            match ops_result((x + y) as u64, c.ops@) {
                Some(r) => Some(Ok(r)),
                None => None,
            }
        } else {
            Some(Err(TaskError::Overflow))
        },
    }
}

/// Driving this core would raise the unrecoverable fault.
pub open spec fn core_faults(c: Core) -> bool {
    core_result(c) is None
}

/// The terminal result of a core that does not fault.
pub open spec fn core_outcome(c: Core) -> Result<u64, TaskError>
    recommends
        !core_faults(c),
{
    core_result(c)->Some_0
}

/// The core ends in the typed failure (and not in the fault).
pub open spec fn core_fails(c: Core) -> bool {
    !core_faults(c) && core_outcome(c) is Err
}

/// The successful number of a core whose outcome is `Ok`.
pub open spec fn core_value(c: Core) -> u64
    recommends
        !core_faults(c),
        core_outcome(c) is Ok,
{
    core_outcome(c)->Ok_0
}

/// The poll on which the core reaches its terminal state, counting from 1.
pub open spec fn core_steps(c: Core) -> nat {
    (c.delay + 1) as nat
}

/// Child `i` reaches its terminal state no later than child `j`, with the
/// lower index winning a same-step tie.  This is the deterministic order
/// behind the tie-break rules of `try_join` and `select`.
pub open spec fn finishes_no_later(cs: Seq<Core>, i: int, j: int) -> bool {
    core_steps(cs[i]) < core_steps(cs[j]) || (core_steps(cs[i]) == core_steps(cs[j]) && i <= j)
}

/// Child `i` of a `select` is the first to reach a terminal state.
pub open spec fn is_select_winner(cs: Seq<Core>, i: int) -> bool {
    &&& 0 <= i < cs.len()
    &&& forall|j: int| 0 <= j < cs.len() ==> finishes_no_later(cs, i, j)
}

/// The index reported by `select`: the first child to finish, lowest
/// index first within one step.
pub open spec fn select_winner(cs: Seq<Core>) -> int {
    choose|i: int| is_select_winner(cs, i)
}

/// Child `i` is still undriven and will end in the typed failure.
pub open spec fn unfinished_fails(cs: Seq<Core>, rs: Seq<Option<u64>>, i: int) -> bool {
    0 <= i < cs.len() && rs[i] is None && core_fails(cs[i])
}

/// Some still-undriven child of a `try_join` will fail.
pub open spec fn has_failure(cs: Seq<Core>, rs: Seq<Option<u64>>) -> bool {
    exists|i: int| unfinished_fails(cs, rs, i)
}

/// Child `f` is never polled to its terminal step: some failing child is
/// observed strictly before it — in an earlier step, or in the same step
/// at a lower index — and short-circuits the whole `try_join` first.
pub open spec fn fault_is_abandoned(cs: Seq<Core>, rs: Seq<Option<u64>>, f: int) -> bool {
    exists|j: int|
        unfinished_fails(cs, rs, j) && (core_steps(cs[j]) < core_steps(cs[f]) || (core_steps(
            cs[j],
        ) == core_steps(cs[f]) && j < f))
}

/// Child `i` is the failure a `try_join` observes first: no failing child
/// finishes earlier, and none failing in the same step has a lower index.
pub open spec fn is_first_failure(cs: Seq<Core>, rs: Seq<Option<u64>>, i: int) -> bool {
    &&& unfinished_fails(cs, rs, i)
    &&& forall|j: int| unfinished_fails(cs, rs, j) ==> finishes_no_later(cs, i, j)
}

/// The index of the failure a `try_join` observes first.
pub open spec fn first_failure(cs: Seq<Core>, rs: Seq<Option<u64>>) -> int {
    choose|i: int| is_first_failure(cs, rs, i)
}

/// The error of the failure a `try_join` observes first.
pub open spec fn failure_error(cs: Seq<Core>, rs: Seq<Option<u64>>) -> TaskError {
    core_outcome(cs[first_failure(cs, rs)])->Err_0
}

/// The values a `join` or `try_join` hands out, in the children's
/// original order: the recorded value of a finished child, the eventual
/// value of an unfinished one.
pub open spec fn collected(cs: Seq<Core>, rs: Seq<Option<u64>>) -> Seq<u64> {
    Seq::new(cs.len(), |i: int| match rs[i] {
        Some(v) => v,
        None => core_value(cs[i]),
    })
}

/// The polls still owed by the unfinished children; the driver's
/// termination measure for the join combinators.
pub open spec fn remaining_measure(cs: Seq<Core>, rs: Seq<Option<u64>>) -> nat
    decreases cs.len(),
{
    if cs.len() == 0 {
        0
    } else {
        (if rs[0] is None {
            core_steps(cs[0])
        } else {
            0
        }) + remaining_measure(cs.skip(1), rs.skip(1))
    }
}

/// The polls still owed by all children; the termination measure for
/// `select`, whose children are never retired early.
pub open spec fn full_measure(cs: Seq<Core>) -> nat
    decreases cs.len(),
{
    if cs.len() == 0 {
        0
    } else {
        core_steps(cs[0]) + full_measure(cs.skip(1))
    }
}

impl Task {
    /// The task is a leaf or a mapped leaf, not a composite.
    pub open spec fn is_simple(self) -> bool {
        self.state is Simple
    }

    /// Structural soundness: a composite's bookkeeping matches its
    /// children, and a `select` has someone to race.
    pub open spec fn wf(self) -> bool {
        match self.state {
            State::Simple(_) => true,
            State::Join { children, results } => children@.len() == results@.len(),
            State::TryJoin { children, results } => children@.len() == results@.len(),
            State::Select { children } => children@.len() > 0,
        }
    }

    /// Driving the task stays inside its contract: no poll reaches the
    /// unrecoverable fault, and the infallible `join` holds only
    /// children that cannot fail.  A child that is abandoned before its
    /// fault could fire is harmless: in a `select` every child but the
    /// race's first finisher, in a `try_join` every child that an
    /// earlier-observed failure short-circuits away.
    pub open spec fn drivable(self) -> bool {
        match self.state {
            State::Simple(c) => !core_faults(c),
            State::Join { children, results: _ } => forall|i: int|
                0 <= i < children@.len() ==> !core_faults(#[trigger] children@[i])
                    && core_outcome(children@[i]) is Ok,
            State::TryJoin { children, results } => forall|f: int|
                0 <= f < children@.len() && results@[f] is None && core_faults(
                    #[trigger] children@[f],
                ) ==> fault_is_abandoned(children@, results@, f),
            State::Select { children } => !core_faults(children@[select_winner(children@)]),
        }
    }

    /// The terminal result the driver reaches for the task.
    pub open spec fn outcome(self) -> Result<SpecVal, TaskError>
        recommends
            self.wf(),
            self.drivable(),
    {
        match self.state {
            State::Simple(c) => match core_outcome(c) {
                Ok(v) => Ok(SpecVal::Num(v)),
                Err(e) => Err(e),
            },
            State::Join { children, results } => Ok(
                SpecVal::List(collected(children@, results@)),
            ),
            State::TryJoin { children, results } => if has_failure(children@, results@) {
                Err(failure_error(children@, results@))
            } else {
                Ok(SpecVal::List(collected(children@, results@)))
            },
            State::Select { children } => match core_outcome(
                children@[select_winner(children@)],
            ) {
                Ok(v) => Ok(SpecVal::Num(v)),
                Err(e) => Err(e),
            },
        }
    }

    /// The poll on which a simple task reaches its terminal state.
    pub open spec fn steps(self) -> nat
        recommends
            self.is_simple(),
    {
        match self.state {
            State::Simple(c) => core_steps(c),
            _ => 0,
        }
    }

    /// The successful number of a simple task whose outcome is `Ok`.
    pub open spec fn ok_num(self) -> u64
        recommends
            self.is_simple(),
            self.outcome() is Ok,
    {
        match self.state {
            State::Simple(c) => core_value(c),
            _ => 0,
        }
    }

    /// How much polling the whole task still owes; strictly decreasing
    /// across `Pending` polls, so every drive terminates.
    pub open spec fn measure(self) -> nat {
        match self.state {
            State::Simple(c) => core_steps(c),
            State::Join { children, results } => remaining_measure(children@, results@),
            State::TryJoin { children, results } => remaining_measure(children@, results@),
            State::Select { children } => full_measure(children@),
        }
    }

    /// The task is an untransformed leaf holding `v`, `delay` polls from
    /// ready.
    pub open spec fn is_value_leaf(self, v: u64, delay: u64) -> bool {
        self.state matches State::Simple(c) && c.delay == delay && c.source == Source::Value(v)
            && c.ops@.len() == 0
    }

    /// The task is a leaf holding `v` with exactly the transform `op`
    /// queued on it.
    pub open spec fn is_mapped_leaf(self, v: u64, op: Op, delay: u64) -> bool {
        self.state matches State::Simple(c) && c.delay == delay && c.source == Source::Value(v)
            && c.ops@ == seq![op]
    }
}

/// From any failing, undriven child a first-observed failure can be
/// reached, so `first_failure` names a real child.
pub proof fn lemma_first_failure_exists(cs: Seq<Core>, rs: Seq<Option<u64>>, w: int)
    requires
        unfinished_fails(cs, rs, w),
    ensures
        exists|i: int| is_first_failure(cs, rs, i),
    decreases core_steps(cs[w]), w,
{
    if is_first_failure(cs, rs, w) {
        assert(exists|i: int| is_first_failure(cs, rs, i));
    } else {
        let j = choose|j: int| unfinished_fails(cs, rs, j) && !finishes_no_later(cs, w, j);
        lemma_first_failure_exists(cs, rs, j);
    }
}

/// Two first-observed failures are the same child.
pub proof fn lemma_first_failure_unique(cs: Seq<Core>, rs: Seq<Option<u64>>, i: int, j: int)
    requires
        is_first_failure(cs, rs, i),
        is_first_failure(cs, rs, j),
    ensures
        i == j,
{
    assert(finishes_no_later(cs, i, j));
    assert(finishes_no_later(cs, j, i));
}

/// A nonempty race has a first finisher, so `select_winner` names a real
/// child.
pub proof fn lemma_select_winner_exists(cs: Seq<Core>, w: int)
    requires
        0 <= w < cs.len(),
    ensures
        exists|i: int| is_select_winner(cs, i),
    decreases core_steps(cs[w]), w,
{
    if is_select_winner(cs, w) {
        assert(exists|i: int| is_select_winner(cs, i));
    } else {
        let j = choose|j: int| 0 <= j < cs.len() && !finishes_no_later(cs, w, j);
        lemma_select_winner_exists(cs, j);
    }
}

/// Two first finishers of a race are the same child.
pub proof fn lemma_select_winner_unique(cs: Seq<Core>, i: int, j: int)
    requires
        is_select_winner(cs, i),
        is_select_winner(cs, j),
    ensures
        i == j,
{
    assert(finishes_no_later(cs, i, j));
    assert(finishes_no_later(cs, j, i));
}

} // verus!
