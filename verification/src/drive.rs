//! Polling and the driver.
//!
//! `Task::poll` makes one bounded unit of progress and consumes the task
//! when it reaches a terminal state; `run_to_completion` is the single
//! entry point that repeatedly polls one task tree until it finishes.

use vstd::prelude::*;
use vstd::pervasive::unreached;
use crate::task::{
    collected, core_faults, core_outcome, core_result, core_steps, core_value,
    failure_error, fault_is_abandoned, finishes_no_later, first_failure, full_measure, has_failure, is_first_failure,
    is_select_winner, lemma_first_failure_exists, lemma_first_failure_unique,
    lemma_select_winner_exists, lemma_select_winner_unique, ops_result, remaining_measure,
    select_winner, unfinished_fails, Core, Op, Polled, Source, SpecVal, State, Task, TaskError,
    Val,
};

verus! {

/// What one poll of a single core reports.
enum CorePoll {
    Pending,
    Ready(u64),
    Failed(TaskError),
}

/// Applies the queued transforms to `v`, first queued first; `None`
/// reports that a transform would overflow, without overflowing.
fn apply_ops(v: u64, ops: &Vec<Op>) -> (r: Option<u64>)
    ensures
        r == ops_result(v, ops@),
{
    let mut cur: u64 = v;
    let mut i: usize = 0;
    proof {
        assert(ops@.skip(0) =~= ops@);
    }
    while i < ops.len()
        invariant
            0 <= i <= ops@.len(),
            ops_result(v, ops@) == ops_result(cur, ops@.skip(i as int)),
        decreases ops@.len() - i,
    {
        proof {
            assert(ops@.skip(i as int)[0] == ops@[i as int]);
            assert(ops@.skip(i as int).skip(1) =~= ops@.skip(i as int + 1));
        }
        let op = ops[i];
        match op {
            Op::Identity => {},
            Op::Increment => {
                if cur == u64::MAX {
                    return None;
                }
                cur = cur + 1;
            },
            Op::Square => {
                if cur > 0xFFFF_FFFF {
                    return None;
                }
                proof {
                    assert(cur * cur <= 0xFFFF_FFFF * 0xFFFF_FFFF) by (nonlinear_arith)
                        requires
                            cur <= 0xFFFF_FFFF,
                    ;
                }
                cur = cur * cur;
            },
        }
        i = i + 1;
    }
    Some(cur)
}

/// Runs a core's computation to its end: the fault class comes back as
/// `None` instead of being raised.
fn eval_core(c: &Core) -> (r: Option<Result<u64, TaskError>>)
    ensures
        r == core_result(*c),
{
    match c.source {
        Source::Fault => None,
        Source::Value(v) => match apply_ops(v, &c.ops) {
            Some(n) => Some(Ok(n)),
            None => None,
        },
        Source::CheckedAdd(x, y) => {
            let s: u64 = x as u64 + y as u64;
            if s <= u8::MAX as u64 {
                match apply_ops(s, &c.ops) {
                    Some(n) => Some(Ok(n)),
                    None => None,
                }
            } else {
                Some(Err(TaskError::Overflow))
            }
        },
    }
}

/// One poll of a single core: count the delay down, then produce the
/// terminal result.
fn poll_core(c: Core) -> (r: (Core, CorePoll))
    requires
        c.delay == 0 ==> !core_faults(c),
    ensures
        (match r.1 {
            CorePoll::Pending => c.delay > 0 && r.0.source == c.source && r.0.ops@ == c.ops@
                && r.0.delay == c.delay - 1,
            CorePoll::Ready(v) => c.delay == 0 && r.0 == c && core_outcome(c) == Ok::<
                u64,
                TaskError,
            >(v),
            CorePoll::Failed(e) => c.delay == 0 && r.0 == c && core_outcome(c) == Err::<
                u64,
                TaskError,
            >(e),
        }),
        (r.1 is Pending <==> core_steps(c) > 1),
{
    if c.delay > 0 {
        let c2 = Core { delay: c.delay - 1, ..c };
        (c2, CorePoll::Pending)
    } else {
        match eval_core(&c) {
            Some(Ok(v)) => (c, CorePoll::Ready(v)),
            Some(Err(e)) => (c, CorePoll::Failed(e)),
            None => unreached(),
        }
    }
}

/// A core's end result does not depend on its remaining delay.
proof fn lemma_core_result_same(c1: Core, c2: Core)
    requires
        c1.source == c2.source,
        c1.ops@ == c2.ops@,
    ensures
        core_result(c1) == core_result(c2),
{
}

/// What one pass of `join` or `try_join` does to one child's slot:
/// a finished child is left alone, a child with delay left is counted
/// down, and a child on its last poll is finished and recorded.
spec fn joined_slot(c0: Core, r0: Option<u64>, c1: Core, r1: Option<u64>) -> bool {
    if r0 is Some {
        c1 == c0 && r1 == r0
    } else if core_steps(c0) > 1 {
        r1 is None && c1.source == c0.source && c1.ops@ == c0.ops@ && core_steps(c1) == (
        core_steps(c0) - 1) as nat
    } else {
        c1 == c0 && !core_faults(c0) && core_outcome(c0) is Ok && r1 == Some(core_value(c0))
    }
}

/// A pass over slot-shrunk children spends at least no polls; together
/// with a strict witness it drives the termination measure down.
proof fn lemma_remaining_measure_le(
    cs0: Seq<Core>,
    rs0: Seq<Option<u64>>,
    cs1: Seq<Core>,
    rs1: Seq<Option<u64>>,
)
    requires
        cs0.len() == rs0.len(),
        cs1.len() == cs0.len(),
        rs1.len() == cs0.len(),
        forall|k: int| 0 <= k < cs0.len() ==> joined_slot(cs0[k], rs0[k], cs1[k], rs1[k]),
    ensures
        remaining_measure(cs1, rs1) <= remaining_measure(cs0, rs0),
    decreases cs0.len(),
{
    if cs0.len() > 0 {
        assert(joined_slot(cs0[0], rs0[0], cs1[0], rs1[0]));
        assert forall|k: int| 0 <= k < cs0.skip(1).len() implies joined_slot(
            cs0.skip(1)[k],
            rs0.skip(1)[k],
            cs1.skip(1)[k],
            rs1.skip(1)[k],
        ) by {
            assert(joined_slot(cs0[k + 1], rs0[k + 1], cs1[k + 1], rs1[k + 1]));
        }
        lemma_remaining_measure_le(cs0.skip(1), rs0.skip(1), cs1.skip(1), rs1.skip(1));
    }
}

/// One pass that still left some child unfinished strictly decreases the
/// join combinators' termination measure.
proof fn lemma_remaining_measure_lt(
    cs0: Seq<Core>,
    rs0: Seq<Option<u64>>,
    cs1: Seq<Core>,
    rs1: Seq<Option<u64>>,
    w: int,
)
    requires
        cs0.len() == rs0.len(),
        cs1.len() == cs0.len(),
        rs1.len() == cs0.len(),
        forall|k: int| 0 <= k < cs0.len() ==> joined_slot(cs0[k], rs0[k], cs1[k], rs1[k]),
        0 <= w < cs0.len(),
        rs0[w] is None,
    ensures
        remaining_measure(cs1, rs1) < remaining_measure(cs0, rs0),
    decreases cs0.len(),
{
    assert forall|k: int| 0 <= k < cs0.skip(1).len() implies joined_slot(
        cs0.skip(1)[k],
        rs0.skip(1)[k],
        cs1.skip(1)[k],
        rs1.skip(1)[k],
    ) by {
        assert(joined_slot(cs0[k + 1], rs0[k + 1], cs1[k + 1], rs1[k + 1]));
    }
    assert(joined_slot(cs0[0], rs0[0], cs1[0], rs1[0]));
    if rs0[0] is None {
        lemma_remaining_measure_le(cs0.skip(1), rs0.skip(1), cs1.skip(1), rs1.skip(1));
    } else {
        assert(rs0.skip(1)[w - 1] is None);
        lemma_remaining_measure_lt(cs0.skip(1), rs0.skip(1), cs1.skip(1), rs1.skip(1), w - 1);
    }
}

/// One pass of `select` over an all-pending field strictly decreases its
/// termination measure.
proof fn lemma_full_measure_lt(cs0: Seq<Core>, cs1: Seq<Core>)
    requires
        cs1.len() == cs0.len(),
        cs0.len() > 0,
        forall|k: int| 0 <= k < cs0.len() ==> core_steps(#[trigger] cs1[k]) < core_steps(cs0[k]),
    ensures
        full_measure(cs1) < full_measure(cs0),
    decreases cs0.len(),
{
    assert(core_steps(cs1[0]) < core_steps(cs0[0]));
    if cs0.len() > 1 {
        assert forall|k: int| 0 <= k < cs0.skip(1).len() implies core_steps(
            #[trigger] cs1.skip(1)[k],
        ) < core_steps(cs0.skip(1)[k]) by {
            assert(core_steps(cs1[k + 1]) < core_steps(cs0[k + 1]));
        }
        lemma_full_measure_lt(cs0.skip(1), cs1.skip(1));
    } else {
        assert(full_measure(cs0.skip(1)) == 0);
        assert(full_measure(cs1.skip(1)) == 0);
    }
}

/// One completed pass of `try_join` changes no observable outcome: the
/// failing children, the first among them, and the collected values all
/// stay as they were.
proof fn lemma_join_pass_preserves(
    cs0: Seq<Core>,
    rs0: Seq<Option<u64>>,
    cs1: Seq<Core>,
    rs1: Seq<Option<u64>>,
)
    requires
        cs0.len() == rs0.len(),
        cs1.len() == cs0.len(),
        rs1.len() == cs0.len(),
        forall|k: int| 0 <= k < cs0.len() ==> joined_slot(cs0[k], rs0[k], cs1[k], rs1[k]),
    ensures
        has_failure(cs1, rs1) == has_failure(cs0, rs0),
        has_failure(cs0, rs0) ==> failure_error(cs1, rs1) == failure_error(cs0, rs0),
        collected(cs1, rs1) == collected(cs0, rs0),
{
    let n = cs0.len();
    assert forall|k: int| unfinished_fails(cs1, rs1, k) implies unfinished_fails(cs0, rs0, k) by {
        assert(joined_slot(cs0[k], rs0[k], cs1[k], rs1[k]));
        lemma_core_result_same(cs0[k], cs1[k]);
    }
    assert forall|k: int| unfinished_fails(cs0, rs0, k) implies unfinished_fails(cs1, rs1, k) by {
        assert(joined_slot(cs0[k], rs0[k], cs1[k], rs1[k]));
        if core_steps(cs0[k]) > 1 {
            lemma_core_result_same(cs0[k], cs1[k]);
        }
    }
    if has_failure(cs0, rs0) {
        let k0 = choose|k: int| unfinished_fails(cs0, rs0, k);
        lemma_first_failure_exists(cs0, rs0, k0);
        let w0 = first_failure(cs0, rs0);
        assert(is_first_failure(cs0, rs0, w0));
        assert(unfinished_fails(cs1, rs1, k0));
        lemma_first_failure_exists(cs1, rs1, k0);
        let w1 = first_failure(cs1, rs1);
        assert(is_first_failure(cs1, rs1, w1));
        assert forall|j: int| unfinished_fails(cs0, rs0, j) implies finishes_no_later(
            cs0,
            w1,
            j,
        ) by {
            assert(unfinished_fails(cs1, rs1, j));
            assert(finishes_no_later(cs1, w1, j));
            assert(joined_slot(cs0[w1], rs0[w1], cs1[w1], rs1[w1]));
            assert(joined_slot(cs0[j], rs0[j], cs1[j], rs1[j]));
        }
        assert(is_first_failure(cs0, rs0, w1));
        lemma_first_failure_unique(cs0, rs0, w0, w1);
        lemma_core_result_same(cs0[w1], cs1[w1]);
    }
    assert forall|k: int| 0 <= k < n implies collected(cs1, rs1)[k] == collected(cs0, rs0)[k] by {
        assert(joined_slot(cs0[k], rs0[k], cs1[k], rs1[k]));
        if rs0[k] is None && core_steps(cs0[k]) > 1 {
            lemma_core_result_same(cs0[k], cs1[k]);
        }
    }
    assert(collected(cs1, rs1) =~= collected(cs0, rs0));
}

impl Task {
    /// One bounded unit of progress on the task.  A `Pending` poll hands
    /// the task back with one step spent and nothing observable changed;
    /// a terminal poll consumes the task and reports its outcome, so a
    /// finished task can never be driven a second time.
    #[verifier::loop_isolation(false)]
    pub fn poll(self) -> (r: Polled)
        requires
            self.wf(),
            self.drivable(),
        ensures
            (match r {
                Polled::Pending(t) => t.wf() && t.drivable() && t.outcome() == self.outcome()
                    && t.measure() < self.measure() && t.is_simple() == self.is_simple() && (
                t.is_simple() ==> t.steps() == (self.steps() - 1) as nat),
                Polled::Ready(v) => self.outcome() == Ok::<SpecVal, TaskError>(v@),
                Polled::Failed(e) => self.outcome() == Err::<SpecVal, TaskError>(e),
            }),
            self.is_simple() ==> ((r is Pending) <==> self.steps() > 1),
    {
        let Task { state } = self;
        match state {
            State::Simple(c) => {
                let (c2, p) = poll_core(c);
                match p {
                    CorePoll::Pending => {
                        proof {
                            lemma_core_result_same(c, c2);
                        }
                        Polled::Pending(Task { state: State::Simple(c2) })
                    },
                    CorePoll::Ready(v) => Polled::Ready(Val::Num(v)),
                    CorePoll::Failed(e) => Polled::Failed(e),
                }
            },
            State::Join { children, results } => {
                let ghost cs0 = children@;
                let ghost rs0 = results@;
                let mut children = children;
                let mut results = results;
                let n = children.len();
                let mut new_children: Vec<Core> = Vec::new();
                let mut new_results: Vec<Option<u64>> = Vec::new();
                let mut i: usize = 0;
                proof {
                    assert(children@ =~= cs0.skip(0));
                    assert(results@ =~= rs0.skip(0));
                }
                while i < n
                    invariant
                        0 <= i <= n,
                        children@ == cs0.skip(i as int),
                        results@ == rs0.skip(i as int),
                        new_children@.len() == i as int,
                        new_results@.len() == i as int,
                        forall|k: int|
                            0 <= k < i ==> joined_slot(
                                cs0[k],
                                rs0[k],
                                #[trigger] new_children@[k],
                                new_results@[k],
                            ),
                    decreases n - i,
                {
                    proof {
                        assert(children@[0] == cs0[i as int]);
                        assert(results@[0] == rs0[i as int]);
                        assert(children@.remove(0) =~= cs0.skip(i as int + 1));
                        assert(results@.remove(0) =~= rs0.skip(i as int + 1));
                    }
                    let c = children.remove(0);
                    let r = results.remove(0);
                    match r {
                        Some(v) => {
                            new_children.push(c);
                            new_results.push(Some(v));
                        },
                        None => {
                            let (c2, p) = poll_core(c);
                            match p {
                                CorePoll::Pending => {
                                    new_children.push(c2);
                                    new_results.push(None);
                                },
                                CorePoll::Ready(v) => {
                                    new_children.push(c2);
                                    new_results.push(Some(v));
                                },
                                CorePoll::Failed(_) => {
                                    // an infallible join never holds a
                                    // failing child
                                    return unreached();
                                },
                            }
                        },
                    }
                    i = i + 1;
                }
                proof {
                    lemma_join_pass_preserves(cs0, rs0, new_children@, new_results@);
                }
                let mut all_done = true;
                let ghost mut wit: int = 0;
                let mut k: usize = 0;
                while k < n
                    invariant
                        0 <= k <= n,
                        all_done ==> forall|j: int|
                            0 <= j < k ==> (#[trigger] new_results@[j]) is Some,
                        !all_done ==> 0 <= wit < n && new_results@[wit] is None,
                    decreases n - k,
                {
                    if new_results[k].is_none() {
                        all_done = false;
                        proof {
                            wit = k as int;
                        }
                    }
                    k = k + 1;
                }
                if all_done {
                    let mut vals: Vec<u64> = Vec::new();
                    let mut k: usize = 0;
                    while k < n
                        invariant
                            0 <= k <= n,
                            vals@.len() == k as int,
                            forall|j: int|
                                0 <= j < k ==> vals@[j] == collected(cs0, rs0)[j],
                        decreases n - k,
                    {
                        match new_results[k] {
                            Some(v) => {
                                proof {
                                    assert(joined_slot(
                                        cs0[k as int],
                                        rs0[k as int],
                                        new_children@[k as int],
                                        new_results@[k as int],
                                    ));
                                }
                                vals.push(v);
                            },
                            None => {
                                return unreached();
                            },
                        }
                        k = k + 1;
                    }
                    proof {
                        assert(vals@ =~= collected(cs0, rs0));
                    }
                    Polled::Ready(Val::List(vals))
                } else {
                    let t2 = Task { state: State::Join { children: new_children, results: new_results } };
                    proof {
                        let w = wit;
                        assert(joined_slot(cs0[w], rs0[w], new_children@[w], new_results@[w]));
                        assert(rs0[w] is None);
                        lemma_remaining_measure_lt(cs0, rs0, new_children@, new_results@, w);
                        assert forall|k: int| 0 <= k < n implies !core_faults(
                            #[trigger] new_children@[k],
                        ) && core_outcome(new_children@[k]) is Ok by {
                            assert(joined_slot(cs0[k], rs0[k], new_children@[k], new_results@[k]));
                            if rs0[k] is None && core_steps(cs0[k]) > 1 {
                                lemma_core_result_same(cs0[k], new_children@[k]);
                            }
                        }
                    }
                    Polled::Pending(t2)
                }
            },
            State::TryJoin { children, results } => {
                let ghost cs0 = children@;
                let ghost rs0 = results@;
                let mut children = children;
                let mut results = results;
                let n = children.len();
                let mut new_children: Vec<Core> = Vec::new();
                let mut new_results: Vec<Option<u64>> = Vec::new();
                let mut i: usize = 0;
                proof {
                    assert(children@ =~= cs0.skip(0));
                    assert(results@ =~= rs0.skip(0));
                }
                while i < n
                    invariant
                        0 <= i <= n,
                        children@ == cs0.skip(i as int),
                        results@ == rs0.skip(i as int),
                        new_children@.len() == i as int,
                        new_results@.len() == i as int,
                        forall|k: int|
                            0 <= k < i ==> joined_slot(
                                cs0[k],
                                rs0[k],
                                #[trigger] new_children@[k],
                                new_results@[k],
                            ),
                    decreases n - i,
                {
                    proof {
                        assert(children@[0] == cs0[i as int]);
                        assert(results@[0] == rs0[i as int]);
                        assert(children@.remove(0) =~= cs0.skip(i as int + 1));
                        assert(results@.remove(0) =~= rs0.skip(i as int + 1));
                    }
                    let c = children.remove(0);
                    let r = results.remove(0);
                    match r {
                        Some(v) => {
                            new_children.push(c);
                            new_results.push(Some(v));
                        },
                        None => {
                            proof {
                                if cs0[i as int].delay == 0 && core_faults(cs0[i as int]) {
                                    // a fault that would fire now cannot be
                                    // abandoned by a later-observed failure
                                    assert(fault_is_abandoned(cs0, rs0, i as int));
                                    let j = choose|j: int|
                                        unfinished_fails(cs0, rs0, j) && (core_steps(cs0[j])
                                            < core_steps(cs0[i as int]) || (core_steps(cs0[j])
                                            == core_steps(cs0[i as int]) && j < i as int));
                                    assert(joined_slot(
                                        cs0[j],
                                        rs0[j],
                                        new_children@[j],
                                        new_results@[j],
                                    ));
                                    assert(false);
                                }
                            }
                            let (c2, p) = poll_core(c);
                            match p {
                                CorePoll::Pending => {
                                    new_children.push(c2);
                                    new_results.push(None);
                                },
                                CorePoll::Ready(v) => {
                                    new_children.push(c2);
                                    new_results.push(Some(v));
                                },
                                CorePoll::Failed(e) => {
                                    // the first failure observed in poll
                                    // order short-circuits the whole join
                                    proof {
                                        let gi = i as int;
                                        assert(unfinished_fails(cs0, rs0, gi));
                                        assert forall|j: int|
                                            unfinished_fails(cs0, rs0, j) implies finishes_no_later(
                                            cs0,
                                            gi,
                                            j,
                                        ) by {
                                            if j < gi {
                                                assert(joined_slot(
                                                    cs0[j],
                                                    rs0[j],
                                                    new_children@[j],
                                                    new_results@[j],
                                                ));
                                            }
                                        }
                                        assert(is_first_failure(cs0, rs0, gi));
                                        lemma_first_failure_exists(cs0, rs0, gi);
                                        lemma_first_failure_unique(
                                            cs0,
                                            rs0,
                                            first_failure(cs0, rs0),
                                            gi,
                                        );
                                    }
                                    return Polled::Failed(e);
                                },
                            }
                        },
                    }
                    i = i + 1;
                }
                proof {
                    lemma_join_pass_preserves(cs0, rs0, new_children@, new_results@);
                }
                let mut all_done = true;
                let ghost mut wit: int = 0;
                let mut k: usize = 0;
                while k < n
                    invariant
                        0 <= k <= n,
                        all_done ==> forall|j: int|
                            0 <= j < k ==> (#[trigger] new_results@[j]) is Some,
                        !all_done ==> 0 <= wit < n && new_results@[wit] is None,
                    decreases n - k,
                {
                    if new_results[k].is_none() {
                        all_done = false;
                        proof {
                            wit = k as int;
                        }
                    }
                    k = k + 1;
                }
                if all_done {
                    proof {
                        if has_failure(cs0, rs0) {
                            let k0 = choose|k: int|
                                unfinished_fails(new_children@, new_results@, k);
                            assert(unfinished_fails(new_children@, new_results@, k0));
                            assert(false);
                        }
                    }
                    let mut vals: Vec<u64> = Vec::new();
                    let mut k: usize = 0;
                    while k < n
                        invariant
                            0 <= k <= n,
                            vals@.len() == k as int,
                            forall|j: int|
                                0 <= j < k ==> vals@[j] == collected(cs0, rs0)[j],
                        decreases n - k,
                    {
                        match new_results[k] {
                            Some(v) => {
                                proof {
                                    assert(joined_slot(
                                        cs0[k as int],
                                        rs0[k as int],
                                        new_children@[k as int],
                                        new_results@[k as int],
                                    ));
                                }
                                vals.push(v);
                            },
                            None => {
                                return unreached();
                            },
                        }
                        k = k + 1;
                    }
                    proof {
                        assert(vals@ =~= collected(cs0, rs0));
                    }
                    Polled::Ready(Val::List(vals))
                } else {
                    let t2 = Task {
                        state: State::TryJoin { children: new_children, results: new_results },
                    };
                    proof {
                        let w = wit;
                        assert(joined_slot(cs0[w], rs0[w], new_children@[w], new_results@[w]));
                        assert(rs0[w] is None);
                        lemma_remaining_measure_lt(cs0, rs0, new_children@, new_results@, w);
                        assert forall|f: int|
                            0 <= f < n && new_results@[f] is None && core_faults(
                                #[trigger] new_children@[f],
                            ) implies fault_is_abandoned(new_children@, new_results@, f) by {
                            assert(joined_slot(cs0[f], rs0[f], new_children@[f], new_results@[f]));
                            lemma_core_result_same(cs0[f], new_children@[f]);
                            assert(fault_is_abandoned(cs0, rs0, f));
                            let j = choose|j: int|
                                unfinished_fails(cs0, rs0, j) && (core_steps(cs0[j]) < core_steps(
                                    cs0[f],
                                ) || (core_steps(cs0[j]) == core_steps(cs0[f]) && j < f));
                            assert(joined_slot(cs0[j], rs0[j], new_children@[j], new_results@[j]));
                            if core_steps(cs0[j]) == 1 {
                                assert(false);
                            }
                            lemma_core_result_same(cs0[j], new_children@[j]);
                            assert(unfinished_fails(new_children@, new_results@, j));
                        }
                    }
                    Polled::Pending(t2)
                }
            },
            State::Select { children } => {
                let ghost cs0 = children@;
                let mut children = children;
                let n = children.len();
                let mut new_children: Vec<Core> = Vec::new();
                let mut i: usize = 0;
                proof {
                    assert(children@ =~= cs0.skip(0));
                }
                while i < n
                    invariant
                        0 <= i <= n,
                        children@ == cs0.skip(i as int),
                        new_children@.len() == i as int,
                        forall|k: int| 0 <= k < i ==> core_steps(#[trigger] cs0[k]) > 1,
                        forall|k: int|
                            0 <= k < i ==> (#[trigger] new_children@[k]).source == cs0[k].source
                                && new_children@[k].ops@ == cs0[k].ops@ && core_steps(
                                new_children@[k],
                            ) == (core_steps(cs0[k]) - 1) as nat,
                    decreases n - i,
                {
                    proof {
                        assert(children@[0] == cs0[i as int]);
                        assert(children@.remove(0) =~= cs0.skip(i as int + 1));
                    }
                    let c = children.remove(0);
                    proof {
                        if cs0[i as int].delay == 0 {
                            lemma_select_winner_at(cs0, i as int);
                        }
                    }
                    let (c2, p) = poll_core(c);
                    match p {
                        CorePoll::Pending => {
                            new_children.push(c2);
                        },
                        CorePoll::Ready(v) => {
                            proof {
                                lemma_select_winner_at(cs0, i as int);
                            }
                            return Polled::Ready(Val::Num(v));
                        },
                        CorePoll::Failed(e) => {
                            proof {
                                lemma_select_winner_at(cs0, i as int);
                            }
                            return Polled::Failed(e);
                        },
                    }
                    i = i + 1;
                }
                let t2 = Task { state: State::Select { children: new_children } };
                proof {
                    lemma_full_measure_lt(cs0, new_children@);
                    lemma_select_winner_exists(cs0, 0);
                    lemma_select_winner_exists(new_children@, 0);
                    let w0 = select_winner(cs0);
                    let w1 = select_winner(new_children@);
                    assert(is_select_winner(cs0, w0));
                    assert(is_select_winner(new_children@, w1));
                    assert forall|j: int| 0 <= j < n implies finishes_no_later(cs0, w1, j) by {
                        assert(finishes_no_later(new_children@, w1, j));
                    }
                    assert(is_select_winner(cs0, w1));
                    lemma_select_winner_unique(cs0, w0, w1);
                    lemma_core_result_same(cs0[w1], new_children@[w1]);
                }
                Polled::Pending(t2)
            },
        }
    }
}

/// Runs one task tree to completion on the calling thread, polling it
/// until it reaches its terminal state.  This is the only entry point
/// that performs work; it consumes the task, so a completed tree cannot
/// be driven again.
pub fn run_to_completion(task: Task) -> (r: Result<Val, TaskError>)
    requires
        task.wf(),
        task.drivable(),
    ensures
        (match r {
            Ok(v) => task.outcome() == Ok::<SpecVal, TaskError>(v@),
            Err(e) => task.outcome() == Err::<SpecVal, TaskError>(e),
        }),
{
    let mut t = task;
    loop
        invariant
            t.wf(),
            t.drivable(),
            t.outcome() == task.outcome(),
        decreases t.measure(),
    {
        match t.poll() {
            Polled::Pending(t2) => {
                t = t2;
            },
            Polled::Ready(v) => {
                return Ok(v);
            },
            Polled::Failed(e) => {
                return Err(e);
            },
        }
    }
}

/// Whether this core can be driven without raising the fault.
fn core_can_run(c: &Core) -> (b: bool)
    ensures
        b == !core_faults(*c),
{
    eval_core(c).is_some()
}

impl Task {
    /// Reports whether the driver's contract admits the task, so that
    /// unverified callers can test before driving and fail loudly
    /// instead of overflowing or polling a fault.
    #[verifier::loop_isolation(false)]
    pub fn can_drive(&self) -> (b: bool)
        ensures
            b == (self.wf() && self.drivable()),
    {
        match &self.state {
            State::Simple(c) => core_can_run(c),
            State::Join { children, results } => {
                if children.len() != results.len() {
                    return false;
                }
                let mut i: usize = 0;
                let mut ok = true;
                while i < children.len()
                    invariant
                        0 <= i <= children@.len(),
                        ok == (forall|k: int|
                            0 <= k < i ==> !core_faults(#[trigger] children@[k]) && core_outcome(
                                children@[k],
                            ) is Ok),
                    decreases children@.len() - i,
                {
                    match eval_core(&children[i]) {
                        Some(Ok(_)) => {},
                        _ => {
                            ok = false;
                        },
                    }
                    i = i + 1;
                }
                ok
            },
            State::TryJoin { children, results } => {
                if children.len() != results.len() {
                    return false;
                }
                // the failure the join would observe first, if any
                let mut found_fail = false;
                let mut best_fail: usize = 0;
                let mut i: usize = 0;
                while i < children.len()
                    invariant
                        0 <= i <= children@.len(),
                        found_fail ==> 0 <= (best_fail as int) < i && unfinished_fails(
                            children@,
                            results@,
                            best_fail as int,
                        ) && (forall|j: int|
                            0 <= j < i && unfinished_fails(children@, results@, j)
                                ==> finishes_no_later(children@, best_fail as int, j)),
                        !found_fail ==> (forall|j: int|
                            0 <= j < i ==> !unfinished_fails(children@, results@, j)),
                    decreases children@.len() - i,
                {
                    let mut fails_here = false;
                    if results[i].is_none() {
                        match eval_core(&children[i]) {
                            Some(Err(_)) => {
                                fails_here = true;
                            },
                            _ => {},
                        }
                    }
                    if fails_here {
                        let ghost b0 = best_fail as int;
                        if !found_fail {
                            found_fail = true;
                            best_fail = i;
                        } else if children[i].delay < children[best_fail].delay {
                            best_fail = i;
                            proof {
                                assert forall|j: int|
                                    0 <= j < i + 1 && unfinished_fails(
                                    children@,
                                    results@,
                                    j,
                                ) implies finishes_no_later(children@, best_fail as int, j) by {
                                    if j < i as int {
                                        assert(finishes_no_later(children@, b0, j));
                                    }
                                }
                            }
                        } else {
                            proof {
                                assert(finishes_no_later(children@, best_fail as int, i as int));
                            }
                        }
                    }
                    i = i + 1;
                }
                // every undriven faulty child must be short-circuited away
                // by that failure before its own fault could fire
                let mut ok = true;
                let ghost mut bad: int = 0;
                let mut k: usize = 0;
                while k < children.len()
                    invariant
                        0 <= k <= children@.len(),
                        ok ==> forall|f: int|
                            0 <= f < k && results@[f] is None && core_faults(
                                #[trigger] children@[f],
                            ) ==> fault_is_abandoned(children@, results@, f),
                        !ok ==> 0 <= bad < children@.len() && results@[bad] is None
                            && core_faults(children@[bad]) && !fault_is_abandoned(
                            children@,
                            results@,
                            bad,
                        ),
                    decreases children@.len() - k,
                {
                    if results[k].is_none() {
                        match eval_core(&children[k]) {
                            None => {
                                let saved = if !found_fail {
                                    false
                                } else {
                                    children[best_fail].delay < children[k].delay || (
                                children[best_fail].delay == children[k].delay && best_fail < k)
                                };
                                proof {
                                    if saved {
                                        assert(unfinished_fails(
                                            children@,
                                            results@,
                                            best_fail as int,
                                        ));
                                        assert(fault_is_abandoned(children@, results@, k as int));
                                    } else if fault_is_abandoned(children@, results@, k as int) {
                                        let j = choose|j: int|
                                            unfinished_fails(children@, results@, j) && (
                                            core_steps(children@[j]) < core_steps(
                                                children@[k as int],
                                            ) || (core_steps(children@[j]) == core_steps(
                                                children@[k as int],
                                            ) && j < k as int));
                                        assert(found_fail);
                                        assert(finishes_no_later(children@, best_fail as int, j));
                                        assert(false);
                                    }
                                }
                                if !saved {
                                    ok = false;
                                    proof {
                                        bad = k as int;
                                    }
                                }
                            },
                            _ => {},
                        }
                    }
                    k = k + 1;
                }
                ok
            },
            State::Select { children } => {
                if children.len() == 0 {
                    return false;
                }
                let mut best: usize = 0;
                let mut i: usize = 1;
                while i < children.len()
                    invariant
                        0 < i <= children@.len(),
                        0 <= best < i,
                        forall|j: int|
                            0 <= j < i ==> finishes_no_later(children@, best as int, j),
                    decreases children@.len() - i,
                {
                    let ghost b0 = best as int;
                    if children[i].delay < children[best].delay {
                        best = i;
                        proof {
                            assert forall|j: int|
                                0 <= j < i + 1 implies finishes_no_later(
                                children@,
                                best as int,
                                j,
                            ) by {
                                if j < i as int {
                                    assert(finishes_no_later(children@, b0, j));
                                }
                            }
                        }
                    } else {
                        proof {
                            assert(finishes_no_later(children@, best as int, i as int));
                        }
                    }
                    i = i + 1;
                }
                proof {
                    assert(is_select_winner(children@, best as int));
                    lemma_select_winner_exists(children@, best as int);
                    lemma_select_winner_unique(children@, select_winner(children@), best as int);
                }
                core_can_run(&children[best])
            },
        }
    }
}

/// A child seen to finish while every earlier child still pends is the
/// race's first finisher.
proof fn lemma_select_winner_at(cs: Seq<Core>, i: int)
    requires
        0 <= i < cs.len(),
        core_steps(cs[i]) == 1,
        forall|k: int| 0 <= k < i ==> core_steps(#[trigger] cs[k]) > 1,
    ensures
        select_winner(cs) == i,
{
    assert forall|j: int| 0 <= j < cs.len() implies finishes_no_later(cs, i, j) by {}
    assert(is_select_winner(cs, i));
    lemma_select_winner_exists(cs, i);
    lemma_select_winner_unique(cs, select_winner(cs), i);
}

} // verus!
