use workassisting::claims::{atomics_count, next_counter_after_exhausted, ChunkCounters};
use workassisting::distribution::distribute;

#[test]
fn distribute_spreads_evenly() {
    assert_eq!(distribute(10, 3), vec![4, 3, 3]);
    assert_eq!(distribute(11, 3), vec![4, 4, 3]);
    assert_eq!(distribute(0, 4), vec![0, 0, 0, 0]);
    assert_eq!(distribute(7, 1), vec![7]);
    assert_eq!(distribute(2, 5), vec![1, 1, 0, 0, 0]);
}

#[test]
fn distribute_keeps_total() {
    for n in 1..20usize {
        let v = distribute(1234, n);
        assert_eq!(v.iter().sum::<u32>(), 1234);
    }
}

#[test]
fn atomics_count_cases() {
    assert_eq!(atomics_count(64, 4, 100), 25);
    assert_eq!(atomics_count(64, 4, 1000), 64);
    assert_eq!(atomics_count(64, 4, 3), 1);
    assert_eq!(atomics_count(64, 1, 0), 1);
}

#[test]
fn multi_counter_task_ranges() {
    let c = ChunkCounters::new_dataparallel(4, 1, 10);
    assert_eq!(c.starts, vec![0, 3, 6, 8]);
    assert_eq!(c.ends, vec![3, 6, 8, 10]);
    assert_eq!(c.next, c.starts);
    assert_eq!(c.rotation, 0);
}

#[test]
fn one_worker_handles_every_chunk_in_order() {
    let mut c = ChunkCounters::new_dataparallel(4, 1, 10);
    let chunks = c.work_loop();
    assert_eq!(chunks, (0..10).collect::<Vec<u32>>());
    assert!(c.next.iter().zip(c.ends.iter()).all(|(n, e)| n >= e));
}

#[test]
fn work_loop_after_other_worker() {
    let mut c = ChunkCounters::new_dataparallel(4, 1, 10);
    assert_eq!(c.fetch_chunk(1), 3);
    assert_eq!(c.next_range(), 0);
    let chunks = c.work_loop();
    let mut sorted = chunks.clone();
    sorted.sort();
    assert_eq!(sorted, vec![0, 1, 2, 4, 5, 6, 7, 8, 9]);
}

#[test]
fn empty_task_work_loop() {
    let mut c = ChunkCounters::new_dataparallel(64, 4, 0);
    assert_eq!(c.work_loop(), Vec::<u32>::new());
    let mut s = ChunkCounters::new_single();
    assert_eq!(s.work_loop(), Vec::<u32>::new());
}

#[test]
fn bounded_task_first_chunk_taken() {
    let c = ChunkCounters::new_dataparallel_bounded(5);
    assert_eq!(c.starts, vec![0, 1, 2, 3, 4]);
    assert_eq!(c.ends, vec![1, 2, 3, 4, 5]);
    assert_eq!(c.next, vec![1, 1, 2, 3, 4]);
    let c = ChunkCounters::new_dataparallel_bounded(200);
    assert_eq!(c.ends.len(), 64);
    assert_eq!(c.ends[63], 200);
}

#[test]
fn single_counter_loop() {
    let mut c = ChunkCounters::new_dataparallel_single(7);
    assert_eq!(c.work_loop_single(0), (0..7).collect::<Vec<u32>>());
    assert_eq!(c.next[0], 8);
}

#[test]
fn single_counter_helper_gets_rest() {
    let mut c = ChunkCounters::new_dataparallel_single(5);
    let first = c.fetch_chunk(0);
    assert_eq!(first, 1);
    let chunks = c.work_loop_single(first);
    assert_eq!(chunks, vec![1, 2, 3, 4]);
    let late = c.fetch_chunk(0);
    assert!(late >= 5);
}

#[test]
fn fetch_chunk_moves_counter() {
    let mut c = ChunkCounters::new_dataparallel(2, 1, 4);
    assert_eq!(c.fetch_chunk(0), 0);
    assert_eq!(c.fetch_chunk(0), 1);
    assert_eq!(c.fetch_chunk(0), 2);
    assert_eq!(c.next, vec![3, 2]);
}

#[test]
fn next_counter_choice() {
    assert_eq!(next_counter_after_exhausted(0), None);
    for _ in 0..20 {
        match next_counter_after_exhausted(5) {
            Some(i) => assert!(i < 5),
            None => panic!("a counter remains"),
        }
    }
    assert_eq!(next_counter_after_exhausted(1), Some(0));
}
