use workassisting::worker::{
    claim_end, claim_step, next_victim, removal_increment, steal_increment, steal_order,
    ActivitySlot, ClaimStep, EmptySignal, EmptySignalState, StealOutcome, TaskActivity,
};

#[test]
fn increments() {
    assert_eq!(steal_increment(0, 4), 1);
    assert_eq!(steal_increment(1, 4), 3);
    assert_eq!(steal_increment(2, 4), 1);
    assert_eq!(steal_increment(0, 1), 1);
}

#[test]
fn next_victim_wraps() {
    assert_eq!(next_victim(3, 1, 4), 0);
    assert_eq!(next_victim(1, 3, 4), 0);
}

#[test]
fn steal_orders() {
    assert_eq!(steal_order(0, 4), vec![1, 2, 3]);
    assert_eq!(steal_order(1, 4), vec![0, 3, 2]);
    assert_eq!(steal_order(3, 5), vec![2, 1, 0, 4]);
    assert_eq!(steal_order(0, 1), Vec::<usize>::new());
}

#[test]
fn steal_order_visits_all_others_once() {
    for n in 1..12usize {
        for t in 0..n {
            let mut order = steal_order(t, n);
            assert!(!order.contains(&t));
            order.sort();
            let expected: Vec<usize> = (0..n).filter(|&x| x != t).collect();
            assert_eq!(order, expected);
        }
    }
}

#[test]
fn removal_increment_counts_publisher() {
    assert_eq!(removal_increment(0), 1);
    assert_eq!(removal_increment(3), 4);
}

#[test]
fn task_finishes_after_last_participant() {
    let mut a = TaskActivity::start();
    assert!(a.try_join());
    assert!(a.try_join());
    // The starter signals first and takes the task out of its slot.
    a.signal();
    assert!(!a.published);
    assert_eq!(a.active_threads, 3);
    assert!(!a.try_join());
    a.signal();
    a.signal();
    assert!(!a.end());
    assert!(!a.end());
    assert!(a.end());
    assert_eq!(a.active_threads, 0);
}

#[test]
fn helper_ending_early() {
    let mut a = TaskActivity::start();
    assert!(a.try_join());
    // The helper signals first (taking the task out) and ends.
    a.signal();
    assert!(!a.end());
    assert_eq!(a.active_threads, 1);
    a.signal();
    assert!(a.end());
}

#[test]
fn single_participant() {
    let mut a = TaskActivity::start();
    a.signal();
    assert_eq!(a.active_threads, 1);
    assert!(a.end());
}

#[test]
fn empty_signal_only_once() {
    let mut a = TaskActivity::start();
    let mut s = EmptySignal { state: EmptySignalState::Main };
    let mut slot = ActivitySlot { task: Some(7), tag: 0 };
    s.task_empty(&mut a, &mut slot, 7);
    assert!(matches!(s.state, EmptySignalState::DidSignal));
    assert_eq!(a.active_threads, 1);
    assert_eq!(slot.task, None);
    slot = ActivitySlot { task: Some(9), tag: 2 };
    s.task_empty(&mut a, &mut slot, 7);
    assert_eq!(a.active_threads, 1);
    assert_eq!(slot.task, Some(9));
    assert!(a.end());
}

#[test]
fn assist_signal() {
    let mut a = TaskActivity::start();
    assert!(a.try_join());
    let mut helper = EmptySignal { state: EmptySignalState::Assist };
    let mut slot = ActivitySlot { task: Some(3), tag: 1 };
    helper.task_empty(&mut a, &mut slot, 3);
    assert!(!a.published);
    assert_eq!(a.active_threads, 2);
    assert_eq!(slot.task, None);
    assert_eq!(slot.tag, 0);
}

#[test]
fn assist_leaves_later_task_in_slot() {
    let mut a = TaskActivity::start();
    assert!(a.try_join());
    let mut main = EmptySignal { state: EmptySignalState::Main };
    let mut own_slot = ActivitySlot { task: Some(3), tag: 1 };
    main.task_empty(&mut a, &mut own_slot, 3);
    assert_eq!(a.active_threads, 2);
    let mut helper = EmptySignal { state: EmptySignalState::Assist };
    let mut other_slot = ActivitySlot { task: Some(4), tag: 5 };
    helper.task_empty(&mut a, &mut other_slot, 3);
    assert_eq!(other_slot.task, Some(4));
    assert_eq!(other_slot.tag, 5);
    assert_eq!(a.active_threads, 2);
}

#[test]
fn claim_decisions() {
    assert_eq!(claim_step(false, StealOutcome::Success), ClaimStep::Claimed);
    assert_eq!(claim_step(false, StealOutcome::Retry), ClaimStep::Next { retry: true });
    assert_eq!(claim_step(true, StealOutcome::Empty), ClaimStep::Next { retry: true });
    assert_eq!(claim_step(false, StealOutcome::Empty), ClaimStep::Next { retry: false });
    assert_eq!(claim_end(true), StealOutcome::Retry);
    assert_eq!(claim_end(false), StealOutcome::Empty);
}

#[test]
fn second_signal_changes_nothing() {
    let mut a = TaskActivity::start();
    let mut s = EmptySignal { state: EmptySignalState::Assist };
    let mut slot = ActivitySlot { task: Some(5), tag: 0 };
    s.task_empty(&mut a, &mut slot, 5);
    assert_eq!(a.active_threads, 1);
    let mut slot = ActivitySlot { task: Some(5), tag: 3 };
    s.task_empty(&mut a, &mut slot, 5);
    assert_eq!(slot.task, Some(5));
    assert_eq!(slot.tag, 3);
    assert_eq!(a.active_threads, 1);
    assert!(matches!(s.state, EmptySignalState::DidSignal));
}
