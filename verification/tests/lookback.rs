use workassisting::lookback::{
    aggregate_start, block_step, create_temp, create_temp_scheduler, look_back, publish_aggregate,
    publish_prefix, reset, resume_block, BlockAction, BlockInfo, LookBack, STATE_AGGREGATE_AVAILABLE, STATE_INITIALIZED,
    STATE_PREFIX_AVAILABLE,
};

fn block(state: u64, aggregate: usize, prefix: usize) -> BlockInfo {
    BlockInfo { state, aggregate, prefix }
}

#[test]
fn create_temp_counts_blocks() {
    let temp = create_temp(10000);
    assert_eq!(temp.len(), 3);
    assert!(temp.iter().all(|b| b.state == STATE_INITIALIZED && b.aggregate == 0 && b.prefix == 0));
    assert_eq!(create_temp(0).len(), 0);
    assert_eq!(create_temp(4096).len(), 1);
    assert_eq!(create_temp(4097).len(), 2);
}

#[test]
fn create_temp_for_scheduler() {
    assert_eq!(create_temp_scheduler(10000, 4).len(), 10);
    assert_eq!(create_temp_scheduler(10000, 1).len(), 3);
}

#[test]
fn reset_clears() {
    let mut temp = vec![block(2, 5, 9), block(1, 3, 0)];
    reset(&mut temp);
    assert_eq!(temp.len(), 2);
    assert!(temp.iter().all(|b| b.state == STATE_INITIALIZED && b.aggregate == 0 && b.prefix == 0));
}

#[test]
fn aggregate_start_cases() {
    let temp = vec![block(STATE_PREFIX_AVAILABLE, 0, 7), block(STATE_AGGREGATE_AVAILABLE, 4, 0), block(STATE_INITIALIZED, 0, 0)];
    assert_eq!(aggregate_start(true, 0, &temp), Some(0));
    assert_eq!(aggregate_start(true, 1, &temp), Some(7));
    assert_eq!(aggregate_start(true, 2, &temp), None);
    assert_eq!(aggregate_start(false, 1, &temp), None);
    assert_eq!(aggregate_start(false, 0, &temp), None);
}

#[test]
fn look_back_adds_aggregates_until_prefix() {
    // Block totals 7 (prefix 7), 4, 5, 6.
    let temp = vec![
        block(STATE_PREFIX_AVAILABLE, 0, 7),
        block(STATE_AGGREGATE_AVAILABLE, 4, 0),
        block(STATE_AGGREGATE_AVAILABLE, 5, 0),
        block(STATE_AGGREGATE_AVAILABLE, 6, 0),
    ];
    assert!(matches!(look_back(&temp, 3, 0), LookBack::Found(22)));
    assert!(matches!(look_back(&temp, 1, 0), LookBack::Found(11)));
    assert!(matches!(look_back(&temp, 0, 0), LookBack::Found(7)));
}

#[test]
fn look_back_waits_on_unpublished_block() {
    let temp = vec![
        block(STATE_PREFIX_AVAILABLE, 0, 7),
        block(STATE_INITIALIZED, 0, 0),
        block(STATE_AGGREGATE_AVAILABLE, 5, 0),
    ];
    match look_back(&temp, 2, 0) {
        LookBack::Wait { previous, aggregate } => {
            assert_eq!(previous, 1);
            assert_eq!(aggregate, 5);
        }
        LookBack::Found(_) => panic!("block 1 has published nothing"),
    }
    // Resuming once block 1 has published its prefix.
    let temp = vec![
        block(STATE_PREFIX_AVAILABLE, 0, 7),
        block(STATE_PREFIX_AVAILABLE, 0, 10),
        block(STATE_AGGREGATE_AVAILABLE, 5, 0),
    ];
    assert!(matches!(look_back(&temp, 1, 5), LookBack::Found(15)));
}

#[test]
fn publishing_sets_state() {
    let mut temp = create_temp(3 * 4096);
    publish_prefix(&mut temp, 0, 3);
    publish_aggregate(&mut temp, 2, 4);
    assert_eq!(temp[0].state, STATE_PREFIX_AVAILABLE);
    assert_eq!(temp[0].prefix, 3);
    assert_eq!(temp[2].state, STATE_AGGREGATE_AVAILABLE);
    assert_eq!(temp[2].aggregate, 4);
    assert_eq!(temp[1].state, STATE_INITIALIZED);
}

#[test]
fn scan_of_block_totals_in_any_order() {
    // Block totals 3, 1, 4, 1, 5; blocks 2 and 4 go first on another worker.
    let totals = [3usize, 1, 4, 1, 5];
    let mut temp = create_temp(5 * 4096);
    publish_aggregate(&mut temp, 2, totals[2]);
    publish_aggregate(&mut temp, 4, totals[4]);
    publish_prefix(&mut temp, 0, totals[0]);
    assert_eq!(aggregate_start(true, 1, &temp), Some(3));
    publish_prefix(&mut temp, 1, 3 + totals[1]);
    publish_aggregate(&mut temp, 3, totals[3]);
    match look_back(&temp, 3, 0) {
        LookBack::Found(a) => assert_eq!(a, 3 + 1 + 4 + 1),
        LookBack::Wait { .. } => panic!("all blocks before block 4 have published"),
    }
}

#[test]
fn block_step_decisions() {
    let temp = vec![block(STATE_PREFIX_AVAILABLE, 0, 5), block(STATE_AGGREGATE_AVAILABLE, 3, 0), block(STATE_INITIALIZED, 0, 0)];
    assert!(matches!(block_step(true, 0, &temp), BlockAction::ScanFrom(0)));
    assert!(matches!(block_step(true, 1, &temp), BlockAction::ScanFrom(5)));
    assert!(matches!(block_step(true, 2, &temp), BlockAction::CountThenLookBack));
    assert!(matches!(block_step(false, 1, &temp), BlockAction::CountThenLookBack));
}

#[test]
fn resume_block_publishes_prefix() {
    let mut temp = vec![
        block(STATE_PREFIX_AVAILABLE, 0, 5),
        block(STATE_AGGREGATE_AVAILABLE, 3, 0),
        block(STATE_AGGREGATE_AVAILABLE, 4, 0),
    ];
    match resume_block(&mut temp, 2, 4, 1, 0) {
        LookBack::Found(a) => assert_eq!(a, 8),
        LookBack::Wait { .. } => panic!("the walk reaches block 0"),
    }
    assert_eq!(temp[2].state, STATE_PREFIX_AVAILABLE);
    assert_eq!(temp[2].prefix, 12);
    assert_eq!(temp[2].aggregate, 4);
}

#[test]
fn resume_block_waits() {
    let mut temp = vec![
        block(STATE_PREFIX_AVAILABLE, 0, 5),
        block(STATE_INITIALIZED, 0, 0),
        block(STATE_AGGREGATE_AVAILABLE, 3, 0),
        block(STATE_AGGREGATE_AVAILABLE, 4, 0),
    ];
    match resume_block(&mut temp, 3, 4, 2, 0) {
        LookBack::Wait { previous, aggregate } => {
            assert_eq!(previous, 1);
            assert_eq!(aggregate, 3);
        },
        LookBack::Found(_) => panic!("block 1 has published nothing"),
    }
    assert_eq!(temp[3].state, STATE_AGGREGATE_AVAILABLE);
}
