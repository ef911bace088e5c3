use oxyde_sorting::{
    scan_then_propagate_level_count, workgroup_size_per_level, BufferDescriptor, BufferRole,
    BufferUsages, Command, CountingSortingError, GpuCountingSortModule,
};

fn buffer(usage: BufferUsages, elements: u64) -> BufferDescriptor {
    BufferDescriptor { usage, size: elements * 4 }
}

fn values_usage() -> BufferUsages {
    BufferUsages::storage().union(BufferUsages::copy_src())
}

fn count_usage() -> BufferUsages {
    BufferUsages::storage()
        .union(BufferUsages::copy_src())
        .union(BufferUsages::copy_dst())
}

#[test]
fn level_count_follows_digits() {
    assert_eq!(scan_then_propagate_level_count(0, 128), 1);
    assert_eq!(scan_then_propagate_level_count(127, 128), 1);
    assert_eq!(scan_then_propagate_level_count(128, 128), 2);
    assert_eq!(scan_then_propagate_level_count(8192, 128), 2);
    assert_eq!(scan_then_propagate_level_count(16384, 128), 3);
    assert_eq!(scan_then_propagate_level_count(4096, 32), 3);
    assert_eq!(scan_then_propagate_level_count(u32::MAX, 2), 32);
}

#[test]
fn workgroups_per_level_round_up() {
    assert_eq!(workgroup_size_per_level(8192, 128, 2), vec![64, 1]);
    assert_eq!(workgroup_size_per_level(1000, 10, 4), vec![100, 10, 1, 1]);
    assert_eq!(workgroup_size_per_level(1001, 10, 3), vec![101, 11, 2]);
    assert_eq!(workgroup_size_per_level(u32::MAX, 2, 1), vec![1u32 << 31]);
    assert!(workgroup_size_per_level(50, 8, 0).is_empty());
}

#[test]
fn wrong_workgroup_size_is_rejected() {
    let values = buffer(values_usage(), 4096);
    let count = buffer(count_usage(), 4096);
    let r = GpuCountingSortModule::new(&values, &count, 32);
    assert!(matches!(
        r,
        Err(CountingSortingError::ToManyScanThenPropagateLevels(4096, 32, 3))
    ));
}

#[test]
fn count_buffer_without_clear_is_rejected() {
    let values = buffer(values_usage(), 64);
    let count = buffer(BufferUsages::storage(), 64);
    let r = GpuCountingSortModule::new(&values, &count, 32);
    assert!(matches!(
        r,
        Err(CountingSortingError::MissingBufferUsage(u, BufferRole::Count)) if u == BufferUsages::copy_dst()
    ));
}

#[test]
fn values_buffer_without_storage_is_rejected() {
    let values = buffer(BufferUsages::copy_src(), 64);
    let count = buffer(count_usage(), 64);
    let r = GpuCountingSortModule::new(&values, &count, 32);
    assert!(matches!(
        r,
        Err(CountingSortingError::MissingBufferUsage(u, BufferRole::Values)) if u == BufferUsages::storage()
    ));
}

#[test]
fn count_buffer_without_storage_is_rejected() {
    let values = buffer(values_usage(), 64);
    let count = buffer(BufferUsages::copy_dst(), 64);
    let r = GpuCountingSortModule::new(&values, &count, 32);
    assert!(matches!(
        r,
        Err(CountingSortingError::MissingBufferUsage(u, BufferRole::Count)) if u == BufferUsages::storage()
    ));
}

#[test]
fn accepted_engine_allocates_sorting_ids() {
    let values = buffer(values_usage(), 8192);
    let count = buffer(count_usage(), 8192);
    let m = GpuCountingSortModule::new(&values, &count, 128).unwrap();
    let ids = m.sorting_id_buffer();
    assert_eq!(ids.size, 8192 * 4);
    assert_eq!(ids.usage, BufferUsages::storage().union(BufferUsages::copy_src()));
}

#[test]
fn dispatch_records_the_stages_in_order() {
    let values = buffer(values_usage(), 8192);
    let count = buffer(count_usage(), 8192);
    let m = GpuCountingSortModule::new(&values, &count, 128).unwrap();
    let mut batch = Vec::new();
    m.dispatch_work(&mut batch, &count);
    assert_eq!(
        batch,
        vec![
            Command::ClearCount,
            Command::Count { workgroups: 64 },
            Command::Scan { level: 0, workgroups: 64 },
            Command::Scan { level: 1, workgroups: 1 },
            Command::Propagate { level: 0, workgroups: 64 },
            Command::Sort { workgroups: 64 },
        ]
    );
}

#[test]
fn dispatch_with_three_levels() {
    let values = buffer(values_usage(), 100);
    let count = buffer(count_usage(), 100);
    let m = GpuCountingSortModule::new(&values, &count, 10).unwrap();
    let mut batch = vec![Command::ClearCount];
    m.dispatch_work(&mut batch, &count);
    assert_eq!(
        batch,
        vec![
            Command::ClearCount,
            Command::ClearCount,
            Command::Count { workgroups: 10 },
            Command::Scan { level: 0, workgroups: 10 },
            Command::Scan { level: 1, workgroups: 1 },
            Command::Scan { level: 2, workgroups: 1 },
            Command::Propagate { level: 1, workgroups: 1 },
            Command::Propagate { level: 0, workgroups: 10 },
            Command::Sort { workgroups: 10 },
        ]
    );
}

#[test]
fn level_limit_is_enforced() {
    let values = buffer(values_usage(), 16);
    let count = buffer(count_usage(), 100000);
    let r = GpuCountingSortModule::new(&values, &count, 4);
    assert!(matches!(
        r,
        Err(CountingSortingError::ToManyScanThenPropagateLevels(100000, 4, 9))
    ));
}

#[test]
fn largest_bucket_count_for_a_width_is_accepted() {
    let values = buffer(values_usage(), 10);
    let count = buffer(count_usage(), 1024);
    let m = GpuCountingSortModule::new(&values, &count, 32).unwrap();
    assert_eq!(m.scan_level_count(), 3);
    let count = buffer(count_usage(), 1025);
    assert!(matches!(
        GpuCountingSortModule::new(&values, &count, 32),
        Err(CountingSortingError::ToManyScanThenPropagateLevels(1025, 32, 3))
    ));
}

#[test]
fn getters_report_the_geometry() {
    let values = buffer(values_usage(), 5000);
    let count = buffer(count_usage(), 900);
    let m = GpuCountingSortModule::new(&values, &count, 32).unwrap();
    assert_eq!(m.workgroup_size(), 32);
    assert_eq!(m.value_size(), 5000);
    assert_eq!(m.count_size(), 900);
    assert_eq!(m.scan_level_count(), 2);
}

#[test]
fn usage_sets_combine_and_contain() {
    let u = BufferUsages::storage().union(BufferUsages::copy_dst());
    assert_eq!(u.bits, 136);
    assert!(u.contains(BufferUsages::storage()));
    assert!(u.contains(BufferUsages::copy_dst()));
    assert!(!u.contains(BufferUsages::copy_src()));
    assert!(!BufferUsages::copy_src().contains(u));
}
