use oxyde_sorting::kernels::{
    clear_kernel, count_kernel, kogge_stone_scan, propagate_kernel, scan_kernel, sort_kernel, strides,
};
use oxyde_sorting::correctness::is_sorted_by_id as library_check;
use oxyde_sorting::{BufferDescriptor, BufferUsages, Command, GpuCountingSortModule};

fn buffer(usage: BufferUsages, elements: u64) -> BufferDescriptor {
    BufferDescriptor { usage, size: elements * 4 }
}

fn engine(value_size: u32, count_size: u32, workgroup_size: u32) -> (GpuCountingSortModule, BufferDescriptor) {
    let values = buffer(
        BufferUsages::storage().union(BufferUsages::copy_src()),
        value_size as u64,
    );
    let count = buffer(
        BufferUsages::storage()
            .union(BufferUsages::copy_src())
            .union(BufferUsages::copy_dst()),
        count_size as u64,
    );
    let m = GpuCountingSortModule::new(&values, &count, workgroup_size).unwrap();
    (m, count)
}

/// Keys in `[0, buckets)` from a fixed linear congruential sequence.
fn keys(n: usize, buckets: u32, seed: u64) -> Vec<u32> {
    let mut x = seed;
    (0..n)
        .map(|_| {
            x = x.wrapping_mul(6364136223846793005).wrapping_add(1442695040888963407);
            ((x >> 33) % buckets as u64) as u32
        })
        .collect()
}

fn count_values(values: &[u32], count_size: usize) -> Vec<u32> {
    let mut count = vec![0u32; count_size];
    for value in values.iter() {
        count[*value as usize] += 1;
    }
    count
}

fn cpu_prefix_sum(count: &mut [u32]) {
    for i in 1..count.len() {
        count[i] += count[i - 1];
    }
}

fn sorting_id_sort_from_count(values: &[u32], count: &[u32]) -> (Vec<u32>, Vec<u32>) {
    let mut sorting_id = vec![0u32; values.len()];
    let mut count_after_sort = count.to_vec();
    for (i, value) in values.iter().enumerate() {
        let value = *value as usize;
        sorting_id[count_after_sort[value] as usize - 1] = i as u32;
        count_after_sort[value] -= 1;
    }
    (sorting_id, count_after_sort)
}

fn counting_sort_on_cpu(values_slice: &[u32], count_size: usize) -> (Vec<u32>, Vec<u32>, Vec<u32>) {
    let mut count_cpu = count_values(values_slice, count_size);
    cpu_prefix_sum(count_cpu.as_mut_slice());
    let (sorting_id_cpu, count_after_sort_cpu) = sorting_id_sort_from_count(values_slice, &count_cpu);
    (count_cpu, sorting_id_cpu, count_after_sort_cpu)
}

fn is_sorted_by_id(values: &[u32], sorting_id: &[u32]) -> bool {
    for i in 1..sorting_id.len() {
        if values[sorting_id[i] as usize] < values[sorting_id[i - 1] as usize] {
            return false;
        }
    }
    true
}

fn is_permutation(ids: &[u32]) -> bool {
    let mut seen = vec![false; ids.len()];
    for &id in ids {
        if id as usize >= ids.len() || seen[id as usize] {
            return false;
        }
        seen[id as usize] = true;
    }
    true
}

/// Runs the first `stages` launches of one sort; returns counts and ids.
fn run_stages(
    m: &GpuCountingSortModule,
    count_buffer: &BufferDescriptor,
    values: &Vec<u32>,
    count_size: usize,
    stages: Option<usize>,
) -> (Vec<u32>, Vec<u32>) {
    let mut batch = Vec::new();
    m.dispatch_work(&mut batch, count_buffer);
    if let Some(k) = stages {
        batch.truncate(k);
    }
    let mut count = vec![7u32; count_size];
    let mut ids = vec![u32::MAX; values.len()];
    m.execute(&batch, values, &mut count, &mut ids);
    (count, ids)
}

#[test]
fn check_sorting() {
    let size = 8192u32;
    let workgroup_size = 128u32;
    let (m, count_buffer) = engine(size, size, workgroup_size);
    let values = keys(size as usize, size, 64);

    let (gpu_count, gpu_sort) = run_stages(&m, &count_buffer, &values, size as usize, None);
    let (_, sorting_id_cpu, count_after_sort_cpu) = counting_sort_on_cpu(&values, size as usize);

    let sorted_cpu = is_sorted_by_id(&values, &sorting_id_cpu);
    let sorted_gpu = is_sorted_by_id(&values, &gpu_sort);
    let count_after_sort_equal = count_after_sort_cpu == gpu_count;

    assert!(sorted_cpu, "CPU sorting is not correct");
    assert!(sorted_gpu, "GPU sorting is not correct");
    assert!(count_after_sort_equal, "CPU and GPU count after sort are not equal");
    assert!(is_permutation(&gpu_sort));
}

#[test]
fn count_stage_matches_histogram() {
    let (m, count_buffer) = engine(5000, 900, 32);
    let values = keys(5000, 900, 3);
    let (count, ids) = run_stages(&m, &count_buffer, &values, 900, Some(2));
    assert_eq!(count, count_values(&values, 900));
    assert!(ids.iter().all(|&d| d == u32::MAX));
}

#[test]
fn scan_stages_give_inclusive_running_sum() {
    for &(n, buckets, w) in &[(5000u32, 900u32, 32u32), (300, 100, 10), (64, 4, 2), (1000, 1000, 32)] {
        let (m, count_buffer) = engine(n, buckets, w);
        let values = keys(n as usize, buckets, n as u64);
        let mut batch = Vec::new();
        m.dispatch_work(&mut batch, &count_buffer);
        let stages = batch.len() - 1;
        let (count, _) = run_stages(&m, &count_buffer, &values, buckets as usize, Some(stages));
        let mut expected = count_values(&values, buckets as usize);
        cpu_prefix_sum(&mut expected);
        assert_eq!(count, expected, "n={} buckets={} w={}", n, buckets, w);
    }
}

#[test]
fn sort_is_a_grouping_permutation() {
    for &(n, buckets, w) in &[(5000u32, 900u32, 32u32), (300, 100, 10), (64, 4, 2), (1, 1, 2), (777, 3, 16)] {
        let (m, count_buffer) = engine(n, buckets, w);
        let values = keys(n as usize, buckets, 11);
        let (count, ids) = run_stages(&m, &count_buffer, &values, buckets as usize, None);
        assert!(is_permutation(&ids));
        assert!(is_sorted_by_id(&values, &ids));
        let mut starts = count_values(&values, buckets as usize);
        cpu_prefix_sum(&mut starts);
        for (b, c) in count_values(&values, buckets as usize).iter().enumerate() {
            starts[b] -= c;
        }
        assert_eq!(count, starts);
    }
}

#[test]
fn sort_of_equal_keys_fills_from_the_top() {
    let (m, count_buffer) = engine(5, 3, 4);
    let values = vec![1u32; 5];
    let (count, ids) = run_stages(&m, &count_buffer, &values, 3, None);
    assert_eq!(ids, vec![4, 3, 2, 1, 0]);
    assert_eq!(count, vec![0, 0, 5]);
}

#[test]
fn sort_of_small_known_input() {
    let (m, count_buffer) = engine(6, 4, 2);
    let values = vec![3u32, 0, 2, 0, 3, 1];
    let (count, ids) = run_stages(&m, &count_buffer, &values, 4, None);
    assert_eq!(ids, vec![3, 1, 5, 2, 4, 0]);
    assert_eq!(count, vec![0, 2, 3, 4]);
}

#[test]
fn empty_values_leave_zero_counts() {
    let (m, count_buffer) = engine(0, 16, 4);
    let values: Vec<u32> = Vec::new();
    let (count, ids) = run_stages(&m, &count_buffer, &values, 16, None);
    assert!(ids.is_empty());
    assert_eq!(count, vec![0u32; 16]);
}

#[test]
fn clear_kernel_zeroes() {
    let mut count = vec![1u32, 2, 3];
    clear_kernel(&mut count);
    assert_eq!(count, vec![0, 0, 0]);
}

#[test]
fn count_kernel_counts_only_dispatched_values() {
    let values = vec![0u32, 1, 1, 2, 2, 2, 9];
    let mut count = vec![0u32; 3];
    count_kernel(&values, &mut count, 2, 2);
    assert_eq!(count, vec![1, 2, 1]);
    let mut count = vec![0u32; 3];
    count_kernel(&values, &mut count, 2, 4);
    assert_eq!(count, vec![1, 2, 3]);
}

#[test]
fn count_kernel_wraps() {
    let values = vec![1u32, 1];
    let mut count = vec![5u32, u32::MAX];
    count_kernel(&values, &mut count, 4, 1);
    assert_eq!(count, vec![5, 1]);
}

#[test]
fn scan_kernel_scans_each_group() {
    let mut count = vec![1u32, 2, 3, 4, 5, 6, 7];
    scan_kernel(&mut count, 3, 0, 3);
    assert_eq!(count, vec![1, 3, 6, 4, 9, 15, 7]);
    scan_kernel(&mut count, 3, 1, 1);
    assert_eq!(count, vec![1, 3, 6, 4, 9, 21, 28]);
}

#[test]
fn scan_kernel_skips_groups_not_dispatched() {
    let mut count = vec![1u32, 1, 1, 1, 1];
    scan_kernel(&mut count, 2, 0, 1);
    assert_eq!(count, vec![1, 2, 1, 1, 1]);
}

#[test]
fn propagate_kernel_adds_previous_group_total() {
    let mut count = vec![1u32, 3, 6, 4, 9, 21, 28];
    propagate_kernel(&mut count, 3, 0, 3);
    assert_eq!(count, vec![1, 3, 6, 10, 15, 21, 28]);
}

#[test]
fn sort_kernel_places_from_the_counters() {
    let values = vec![1u32, 0, 1];
    let mut count = vec![1u32, 3];
    let mut ids = vec![9u32; 3];
    sort_kernel(&values, &mut count, &mut ids, 4, 1);
    assert_eq!(ids, vec![1, 2, 0]);
    assert_eq!(count, vec![0, 1]);
}

#[test]
fn strides_of_a_level() {
    assert_eq!(strides(32, 0, 1000), (1, 32));
    assert_eq!(strides(10, 2, 100), (100, 1000));
}

#[test]
fn execute_runs_a_partial_batch() {
    let (m, _) = engine(4, 4, 2);
    let values = vec![3u32, 3, 0, 1];
    let mut count = vec![9u32; 4];
    let mut ids = vec![0u32; 4];
    let batch = vec![Command::ClearCount, Command::Count { workgroups: 1 }];
    m.execute(&batch, &values, &mut count, &mut ids);
    assert_eq!(count, vec![0, 0, 0, 2]);
}

#[test]
fn library_checks_grouping_through_ids() {
    let values = vec![2u32, 0, 1, 0];
    assert!(library_check(&values, &vec![1, 3, 2, 0]));
    assert!(!library_check(&values, &vec![0, 1, 2, 3]));
    assert!(!library_check(&values, &vec![1, 3, 2, 4]));
    assert!(library_check(&values, &Vec::new()));
}

#[test]
fn kogge_stone_scan_is_inclusive() {
    let mut x = vec![3u32, 1, 4, 1, 5, 9, 2];
    kogge_stone_scan(&mut x);
    assert_eq!(x, vec![3, 4, 8, 9, 14, 23, 25]);
    let mut one = vec![7u32];
    kogge_stone_scan(&mut one);
    assert_eq!(one, vec![7]);
    let mut empty: Vec<u32> = Vec::new();
    kogge_stone_scan(&mut empty);
    assert!(empty.is_empty());
    let mut wrapping = vec![u32::MAX, 2];
    kogge_stone_scan(&mut wrapping);
    assert_eq!(wrapping, vec![u32::MAX, 1]);
}
