use cotask::combine::{join, select, try_join};
use cotask::construct::{
    activate_faulty_task, deferred_task, faulty_task, increment, increment_desugared, leaf_task,
    try_plus,
};
use cotask::drive::run_to_completion;
use cotask::task::{Op, Polled, Task, TaskError, Val};

#[test]
fn test_increment() {
    let n = 3;
    let result = run_to_completion(increment(n));
    assert_eq!(Ok(Val::Num(4)), result);
}

#[test]
fn increment_agreement() {
    for n in [0u64, 3, 4, 41, 9_999_999] {
        let eager = run_to_completion(leaf_task(n + 1));
        let lazy = run_to_completion(cotask::construct::map(leaf_task(n), Op::Increment));
        let sugar = run_to_completion(increment(n));
        let desugared = run_to_completion(increment_desugared(n));
        assert_eq!(eager, Ok(Val::Num(n + 1)));
        assert_eq!(eager, lazy);
        assert_eq!(eager, sugar);
        assert_eq!(eager, desugared);
    }
}

#[test]
fn map_squares_the_value() {
    let t = cotask::construct::map(leaf_task(4), Op::Square);
    assert_eq!(Ok(Val::Num(16)), run_to_completion(t));
}

#[test]
fn map_passes_failure_through() {
    let t = cotask::construct::map(try_plus(200, 200), Op::Increment);
    assert_eq!(Err(TaskError::Overflow), run_to_completion(t));
}

#[test]
fn join_preserves_order() {
    let tasks = vec![increment(3), increment_desugared(1)];
    let result = run_to_completion(join(tasks));
    assert_eq!(Ok(Val::List(vec![4, 2])), result);
}

#[test]
fn join_of_nothing_is_empty() {
    let result = run_to_completion(join(Vec::new()));
    assert_eq!(Ok(Val::List(Vec::new())), result);
}

#[test]
fn join_drives_every_child() {
    let tasks = vec![deferred_task(10, 3), leaf_task(20), deferred_task(30, 1)];
    let result = run_to_completion(join(tasks));
    assert_eq!(Ok(Val::List(vec![10, 20, 30])), result);
}

#[test]
fn try_join_reports_the_overflow() {
    let result = run_to_completion(try_join(vec![try_plus(1, 1), try_plus(200, 200)]));
    assert_eq!(Err(TaskError::Overflow), result);
}

#[test]
fn try_join_overflow_position_does_not_matter() {
    let result = run_to_completion(try_join(vec![try_plus(200, 200), try_plus(1, 1)]));
    assert_eq!(Err(TaskError::Overflow), result);
}

#[test]
fn try_join_failure_beats_slower_successes() {
    let tasks = vec![deferred_task(1, 5), try_plus(255, 1), deferred_task(2, 5)];
    let result = run_to_completion(try_join(tasks));
    assert_eq!(Err(TaskError::Overflow), result);
}

#[test]
fn try_join_collects_all_successes() {
    let result = run_to_completion(try_join(vec![try_plus(1, 1), try_plus(2, 2)]));
    assert_eq!(Ok(Val::List(vec![2, 4])), result);
}

#[test]
fn select_tie_goes_to_the_lowest_index() {
    for _ in 0..3 {
        let result = run_to_completion(select(vec![leaf_task(7), leaf_task(9)]));
        assert_eq!(Ok(Val::Num(7)), result);
    }
}

#[test]
fn select_reports_the_first_to_finish() {
    let result = run_to_completion(select(vec![deferred_task(9, 2), leaf_task(7)]));
    assert_eq!(Ok(Val::Num(7)), result);
    let tied = run_to_completion(select(vec![deferred_task(9, 1), deferred_task(7, 1)]));
    assert_eq!(Ok(Val::Num(9)), tied);
}

#[test]
fn select_can_end_in_the_typed_failure() {
    let result = run_to_completion(select(vec![try_plus(200, 200), leaf_task(1)]));
    assert_eq!(Err(TaskError::Overflow), result);
}

#[test]
fn overflow_is_the_error_of_try_plus() {
    assert_eq!(Err(TaskError::Overflow), run_to_completion(try_plus(200, 200)));
    assert_eq!(Ok(Val::Num(255)), run_to_completion(try_plus(255, 0)));
}

#[test]
fn constructing_a_faulty_task_is_inert() {
    let t = faulty_task();
    assert!(!t.can_drive());
    let u = activate_faulty_task();
    assert!(!u.can_drive());
}

#[test]
fn deferred_task_pends_before_it_is_ready() {
    let t: Task = deferred_task(5, 2);
    let t = match t.poll() {
        Polled::Pending(t) => t,
        _ => panic!("one delayed poll expected"),
    };
    let t = match t.poll() {
        Polled::Pending(t) => t,
        _ => panic!("a second delayed poll expected"),
    };
    match t.poll() {
        Polled::Ready(v) => assert_eq!(Val::Num(5), v),
        _ => panic!("the third poll must be ready"),
    }
}

#[test]
fn try_join_abandons_a_fault_behind_the_first_failure() {
    // the failure at the lower index short-circuits the join before the
    // faulty sibling is ever polled to its fault
    let t = try_join(vec![try_plus(200, 200), faulty_task()]);
    assert!(t.can_drive());
    assert_eq!(Err(TaskError::Overflow), run_to_completion(t));
}

#[test]
fn try_join_refuses_a_fault_ahead_of_the_first_failure() {
    assert!(!try_join(vec![faulty_task(), try_plus(200, 200)]).can_drive());
    assert!(!try_join(vec![try_plus(1, 1), faulty_task()]).can_drive());
}

#[test]
fn select_abandons_a_faulty_loser() {
    // the loser of the race is never polled to its fault: the task is
    // drivable and the race is decided by the first finisher
    let t = select(vec![leaf_task(7), faulty_task()]);
    assert!(t.can_drive());
    assert_eq!(Ok(Val::Num(7)), run_to_completion(t));
}

#[test]
fn select_refuses_a_faulty_winner() {
    assert!(!select(vec![faulty_task(), leaf_task(7)]).can_drive());
}

#[test]
fn can_drive_accepts_the_ordinary_tasks() {
    assert!(leaf_task(1).can_drive());
    assert!(try_plus(200, 200).can_drive());
    assert!(join(vec![leaf_task(1), leaf_task(2)]).can_drive());
    assert!(!join(vec![try_plus(200, 200)]).can_drive());
    assert!(try_join(vec![try_plus(200, 200)]).can_drive());
    assert!(select(vec![leaf_task(1)]).can_drive());
    assert!(!select(vec![faulty_task()]).can_drive());
}
