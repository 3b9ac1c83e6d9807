use workassisting::quicksort::{
    count_recursive_calls, fill_random, output, partition_range, pending_after, random,
    reference_sequential_single, sort, sort_range, SortTask, DATAPAR_CUTOFF, SEQUENTIAL_CUTOFF,
};
use workassisting::quicksort::chunk::{
    chunk_bounds,
    chunk_offsets, data_parallel_partition, left_of, pack_counts, parallel_partition_chunk,
    partition_chunk, place_chunk, right_of,
};
use workassisting::quicksort::our;
use workassisting::quicksort::task_parallel;

fn is_sorted(a: &[u32]) -> bool {
    a.windows(2).all(|w| w[0] <= w[1])
}

fn same_elements(a: &[u32], b: &[u32]) -> bool {
    let mut x = a.to_vec();
    let mut y = b.to_vec();
    x.sort();
    y.sort();
    x == y
}

fn pseudo_random_array(n: usize) -> Vec<u32> {
    let mut v = vec![0u32; n];
    fill_random(&mut v);
    v
}

#[test]
fn random_exact_values() {
    assert_eq!(random(0), 1441980778);
    assert_eq!(random(1), 3233686427);
    assert_eq!(random(12345), 2607340401);
}

#[test]
fn fill_random_matches_random() {
    let v = pseudo_random_array(5);
    for i in 0..5 {
        assert_eq!(v[i], random(i as u64));
    }
}

#[test]
fn count_recursive_calls_cases() {
    assert_eq!(count_recursive_calls(10, 0), 1);
    assert_eq!(count_recursive_calls(10, 5), 2);
    assert_eq!(count_recursive_calls(3, 1), 0);
    assert_eq!(count_recursive_calls(2, 0), 0);
    assert_eq!(count_recursive_calls(10, 9), 1);
    assert_eq!(count_recursive_calls(10, 7), 2);
    assert_eq!(count_recursive_calls(10, 8), 1);
}

#[test]
fn partition_places_pivot() {
    let mut a = vec![5, 9, 1, 7, 3, 5, 2, 8];
    let before = a.clone();
    let p = partition_range(&mut a, 0, 8);
    assert_eq!(a[p], 5);
    assert!(a[..p].iter().all(|&x| x < 5));
    assert!(a[p + 1..].iter().all(|&x| x >= 5));
    assert!(same_elements(&a, &before));
}

#[test]
fn partition_of_a_segment_leaves_the_rest() {
    let mut a = vec![100, 4, 2, 8, 1, 100];
    let p = partition_range(&mut a, 1, 5);
    assert_eq!(a[0], 100);
    assert_eq!(a[5], 100);
    assert_eq!(a[p], 4);
    assert_eq!(p, 3);
}

#[test]
fn partition_all_equal() {
    let mut a = vec![3, 3, 3, 3];
    let p = partition_range(&mut a, 0, 4);
    assert_eq!(p, 0);
    assert_eq!(a, vec![3, 3, 3, 3]);
}

#[test]
fn partition_all_smaller() {
    let mut a = vec![9, 1, 2, 3];
    let p = partition_range(&mut a, 0, 4);
    assert_eq!(p, 3);
    assert_eq!(a[3], 9);
}

#[test]
fn sort_sorts() {
    let mut a = pseudo_random_array(1000);
    let before = a.clone();
    sort(&mut a);
    assert!(is_sorted(&a));
    assert!(same_elements(&a, &before));
}

#[test]
fn sort_empty_and_single() {
    let mut a: Vec<u32> = vec![];
    sort(&mut a);
    assert!(a.is_empty());
    let mut b = vec![7];
    sort(&mut b);
    assert_eq!(b, vec![7]);
}

#[test]
fn sort_range_only_touches_range() {
    let mut a = vec![9, 8, 7, 6, 5, 4];
    sort_range(&mut a, 1, 4);
    assert_eq!(a, vec![9, 6, 7, 8, 5, 4]);
}

#[test]
fn output_checksum() {
    let a: Vec<u32> = (0..1000).collect();
    assert_eq!(output(&a), 0 + 478 + 500 + 676 + 999);
}

#[test]
fn reference_sequential_single_sorts_random_values() {
    let mut a = vec![0u32; 2000];
    let r = reference_sequential_single(&mut a);
    let mut expected: Vec<u32> = (0..2000).map(|i| random(i as u64)).collect();
    expected.sort();
    assert_eq!(a, expected);
    let n = expected.len();
    let sum = expected[0] as u64 + expected[478] as u64 + expected[n / 2] as u64
        + expected[n - 324] as u64 + expected[n - 1] as u64;
    assert_eq!(r, sum);
}

#[test]
fn pending_counter_updates() {
    assert_eq!(pending_after(1, 2), (2, false));
    assert_eq!(pending_after(3, 1), (3, false));
    assert_eq!(pending_after(1, 0), (0, true));
    assert_eq!(pending_after(4, 0), (3, false));
}

#[test]
fn data_parallel_create_task_decisions() {
    assert_eq!(our::create_task(0, false, 1), SortTask::Nothing);
    assert_eq!(our::create_task(1, true, 1), SortTask::Nothing);
    assert_eq!(our::create_task(1, false, 1), SortTask::CopyOne);
    assert_eq!(our::create_task(100, false, 1), SortTask::Sequential { copy: true });
    assert_eq!(our::create_task(100, true, 1), SortTask::Sequential { copy: false });
    assert_eq!(our::create_task(SEQUENTIAL_CUTOFF, true, 1), SortTask::TaskParallel);
    assert_eq!(our::create_task(10000, false, 1), SortTask::TaskParallelWithCopy);
    assert_eq!(our::create_task(DATAPAR_CUTOFF, false, 1), SortTask::DataParallel { chunks: 8 });
    assert_eq!(our::create_task(100000, false, 1), SortTask::DataParallel { chunks: 25 });
    assert_eq!(our::create_task(100000, false, 4), SortTask::DataParallel { chunks: 98 });
}

#[test]
fn task_parallel_create_task_decisions() {
    assert_eq!(task_parallel::create_task(0), SortTask::Nothing);
    assert_eq!(task_parallel::create_task(1), SortTask::Nothing);
    assert_eq!(task_parallel::create_task(2), SortTask::Sequential { copy: false });
    assert_eq!(task_parallel::create_task(SEQUENTIAL_CUTOFF - 1), SortTask::Sequential { copy: false });
    assert_eq!(task_parallel::create_task(SEQUENTIAL_CUTOFF), SortTask::TaskParallel);
}

#[test]
fn run_go_reports_calls() {
    let mut a = vec![5, 1, 2, 8, 9, 7];
    let step = task_parallel::run_go(&mut a, 0, 6, 1);
    assert_eq!(step.pivot_index, 2);
    assert_eq!(step.calls, 2);
    assert_eq!(a[2], 5);
    assert_eq!(step.pending, 2);
    assert!(!step.finish);
    assert_eq!(step.tasks, vec![(0, 2), (3, 6)]);
}

#[test]
fn run_go_last_task_finishes() {
    let mut a = vec![2, 1, 3];
    let step = task_parallel::run_go(&mut a, 0, 3, 1);
    assert_eq!(a, vec![1, 2, 3]);
    assert_eq!(step.pivot_index, 1);
    assert_eq!(step.calls, 0);
    assert_eq!(step.pending, 0);
    assert!(step.finish);
    assert!(step.tasks.is_empty());
}

#[test]
fn run_go_one_part_keeps_pending() {
    let mut a = vec![1, 5, 4, 3];
    let step = task_parallel::run_go(&mut a, 0, 4, 3);
    assert_eq!(step.pivot_index, 0);
    assert_eq!(step.calls, 1);
    assert_eq!(step.pending, 3);
    assert!(!step.finish);
    assert_eq!(step.tasks, vec![(1, 4)]);
}

#[test]
fn partition_finish_step() {
    let counters = pack_counts(3, 5);
    let mut input = vec![7, 1, 2, 3, 8, 9, 10, 11, 12];
    let mut output = vec![1, 2, 3, 0, 12, 11, 10, 9, 8];
    let step = our::partition_finish(&mut input, &mut output, false, counters, 1);
    assert_eq!(step.count_left, 3);
    assert_eq!(step.count_right, 5);
    assert_eq!(step.calls, 2);
    assert_eq!(step.pending, 2);
    assert!(!step.finish);
    assert_eq!(step.tasks, vec![(0, 3, true), (4, 9, true)]);
    assert_eq!(output, vec![1, 2, 3, 7, 12, 11, 10, 9, 8]);
    assert_eq!(input, vec![7, 1, 2, 3, 8, 9, 10, 11, 12]);
}

#[test]
fn partition_finish_flipped_copies_single_parts() {
    let mut input = vec![5, 3, 9];
    let mut output = vec![3, 0, 9];
    let step = our::partition_finish(&mut input, &mut output, true, pack_counts(1, 1), 1);
    assert_eq!(step.calls, 0);
    assert_eq!(step.pending, 0);
    assert!(step.finish);
    assert!(step.tasks.is_empty());
    assert_eq!(input, vec![3, 5, 9]);
    assert_eq!(output, vec![3, 0, 9]);
}

#[test]
fn create_task_on_copies_one_element() {
    let input = vec![7];
    let mut output = vec![0];
    assert_eq!(our::create_task_on(&input, &mut output, false, 1), None);
    assert_eq!(output, vec![7]);
    let mut output = vec![0];
    assert_eq!(our::create_task_on(&input, &mut output, true, 1), None);
    assert_eq!(output, vec![0]);
    let mut empty_out: Vec<u32> = vec![];
    assert_eq!(our::create_task_on(&vec![], &mut empty_out, false, 1), None);
    let input = vec![3, 1];
    let mut output = vec![0, 0];
    assert_eq!(our::create_task_on(&input, &mut output, false, 1), Some(SortTask::Sequential { copy: true }));
    assert_eq!(output, vec![0, 0]);
}

#[test]
fn sort_with_tasks_sorts_and_finishes() {
    let mut a = pseudo_random_array(20000);
    let before = a.clone();
    let finished = task_parallel::sort_with_tasks(&mut a);
    assert!(finished);
    assert!(is_sorted(&a));
    assert!(same_elements(&a, &before));
}

#[test]
fn sort_with_tasks_two_elements() {
    let mut a = vec![2, 1];
    assert!(task_parallel::sort_with_tasks(&mut a));
    assert_eq!(a, vec![1, 2]);
}

#[test]
fn partition_chunk_local() {
    let input = vec![5, 1, 9, 3, 7];
    let (values, left) = partition_chunk(&input, 5, 0, 4);
    assert_eq!(values, vec![1, 3, 7, 9]);
    assert_eq!(left, 2);
    let (values, left) = partition_chunk(&input, 5, 1, 3);
    assert_eq!(values, vec![7]);
    assert_eq!(left, 0);
}

#[test]
fn counters_pack_and_unpack() {
    let c = pack_counts(3, 5);
    assert_eq!(c, (5u64 << 32) | 3);
    assert_eq!(left_of(c), 3);
    assert_eq!(right_of(c), 5);
    assert_eq!(left_of(c + pack_counts(2, 1)), 5);
    assert_eq!(right_of(c + pack_counts(2, 1)), 6);
}

#[test]
fn chunk_offsets_place_parts() {
    let before = pack_counts(2, 3);
    assert_eq!(chunk_offsets(before, 20, 4), (2, 13));
}

#[test]
fn place_chunk_copies_both_parts() {
    let mut output = vec![0u32; 8];
    place_chunk(&mut output, &vec![1, 2, 9, 8], 2, 1, 5);
    assert_eq!(output, vec![0, 1, 2, 0, 0, 9, 8, 0]);
}

#[test]
fn parallel_partition_chunk_updates_counter() {
    let input = vec![5, 1, 9, 3, 7, 2, 6];
    let mut output = vec![0u32; 7];
    let mut counters = 0u64;
    let before = parallel_partition_chunk(&input, &mut output, 5, &mut counters, 0, 3);
    assert_eq!(before, 0);
    assert_eq!(left_of(counters), 2);
    assert_eq!(right_of(counters), 1);
    assert_eq!(output, vec![1, 3, 0, 0, 0, 0, 9]);
    let before = parallel_partition_chunk(&input, &mut output, 5, &mut counters, 1, 3);
    assert_eq!(before, pack_counts(2, 1));
    assert_eq!(output, vec![1, 3, 2, 0, 6, 7, 9]);
}

#[test]
fn data_parallel_partition_partitions() {
    let input = pseudo_random_array(1000);
    let mut output = vec![0u32; 1000];
    let p = data_parallel_partition(&input, &mut output, 7);
    assert_eq!(output[p], input[0]);
    assert!(output[..p].iter().all(|&x| x < input[0]));
    assert!(output[p + 1..].iter().all(|&x| x >= input[0]));
    assert!(same_elements(&output, &input));
}

#[test]
fn sort_data_parallel_sorts_into_output() {
    let input0 = pseudo_random_array(40000);
    let mut input = input0.clone();
    let mut out = vec![0u32; 40000];
    let finished = our::sort_data_parallel(&mut input, &mut out, 1);
    assert!(finished);
    assert!(is_sorted(&out));
    assert!(same_elements(&out, &input0));
}

#[test]
fn sort_data_parallel_small_array() {
    let mut input = vec![4, 1, 3, 1, 2];
    let mut out = vec![0u32; 5];
    assert!(our::sort_data_parallel(&mut input, &mut out, 2));
    assert_eq!(out, vec![1, 1, 2, 3, 4]);
}

#[test]
fn sort_data_parallel_two_elements() {
    let mut input = vec![9, 3];
    let mut out = vec![0u32; 2];
    assert!(our::sort_data_parallel(&mut input, &mut out, 1));
    assert_eq!(out, vec![3, 9]);
}

#[test]
fn chunks_in_any_order_partition() {
    let input = pseudo_random_array(1000);
    let pivot = input[0];
    let chunk_len = 64;
    let chunks = (input.len() - 1 + chunk_len - 1) / chunk_len;
    let mut output = vec![0u32; 1000];
    let mut counters = 0u64;
    for c in (0..chunks).rev() {
        parallel_partition_chunk(&input, &mut output, pivot, &mut counters, c, chunk_len);
    }
    let l = left_of(counters) as usize;
    let r = right_of(counters) as usize;
    assert_eq!(l + r + 1, input.len());
    let below: Vec<u32> = input[1..].iter().copied().filter(|&x| x < pivot).collect();
    let rest: Vec<u32> = input[1..].iter().copied().filter(|&x| x >= pivot).collect();
    assert!(same_elements(&output[..l], &below));
    assert!(same_elements(&output[l + 1..], &rest));
}

#[test]
fn chunk_bounds_cases() {
    assert_eq!(chunk_bounds(10, 0, 4), (1, 4));
    assert_eq!(chunk_bounds(10, 1, 4), (5, 4));
    assert_eq!(chunk_bounds(10, 2, 4), (9, 1));
    assert_eq!(chunk_bounds(9, 2, 4), (9, 0));
}
