use workassisting::sums::{
    array_chunk_count, block_sum, chunk_count, chunk_range, reference_parallel,
    reference_sequential_single, static_range, sum_range, work, ARRAY_BLOCK_SIZE,
};

#[test]
fn sequential_sum() {
    assert_eq!(reference_sequential_single(&[1, 2, 3]), 6);
    assert_eq!(reference_sequential_single(&[]), 0);
}

#[test]
fn parallel_sum_matches() {
    let a: Vec<u64> = (0..10000).collect();
    assert_eq!(reference_parallel(&a), 49995000);
    assert_eq!(reference_parallel(&a), reference_sequential_single(&a));
}

#[test]
fn sum_of_range() {
    assert_eq!(sum_range(&[1, 2, 3, 4, 5], 1, 4), 9);
    assert_eq!(sum_range(&[1, 2, 3], 2, 2), 0);
}

#[test]
fn chunk_sums() {
    let a: Vec<u64> = vec![1; 5000];
    assert_eq!(array_chunk_count(5000), 3);
    assert_eq!(array_chunk_count(0), 0);
    assert_eq!(block_sum(&a, 0), ARRAY_BLOCK_SIZE as u64);
    assert_eq!(block_sum(&a, 2), 5000 - 2 * ARRAY_BLOCK_SIZE as u64);
    assert_eq!(block_sum(&a, 3), 0);
}

#[test]
fn workers_share_the_sum() {
    let a: Vec<u64> = (0..5000).collect();
    let total = reference_sequential_single(&a);
    assert_eq!(work(&a, &vec![0, 1, 2]), total);
    assert_eq!(work(&a, &vec![2]) + work(&a, &vec![1, 0]), total);
}

#[test]
fn static_split() {
    assert_eq!(static_range(10, 0, 3), (0, 3));
    assert_eq!(static_range(10, 1, 3), (3, 6));
    assert_eq!(static_range(10, 2, 3), (6, 10));
    let a: Vec<u64> = (0..1000).collect();
    let mut total = 0;
    for t in 0..7 {
        let (s, e) = static_range(a.len(), t, 7);
        total += sum_range(&a, s, e);
    }
    assert_eq!(total, reference_sequential_single(&a));
}

#[test]
fn function_chunks() {
    assert_eq!(chunk_count(1000, 512), 2);
    assert_eq!(chunk_count(1024, 512), 2);
    assert_eq!(chunk_range(100, 1000, 512, 0), (100, 612));
    assert_eq!(chunk_range(100, 1000, 512, 1), (612, 1100));
}
