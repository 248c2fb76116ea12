use dtr_sim::memory::{DRAM, SRAM};
use dtr_sim::sim::Memory;

#[test]
fn new_sram_is_empty() {
    let sram = SRAM::new(64);
    assert_eq!(sram.size_total(), 64);
    assert_eq!(sram.size_allocated(), 0);
    assert_eq!(sram.size_available(), 64);
    assert_eq!(sram.trip_count, 0);
    assert_eq!(sram.peak_size, 0);
    assert!(sram.to_vec().is_empty());
    assert!(sram.evict.is_empty());
}

#[test]
fn put_from_elsewhere_counts_a_trip() {
    let mut sram = SRAM::new(16);
    assert!(sram.put(&7, 5, false));
    assert_eq!(sram.trip_count, 1);
    assert_eq!(sram.resident_size, 5);
    assert_eq!(sram.size_available(), 11);
    assert!(sram.contains(&7));
    assert_eq!(sram.get(&7), 5);
    assert_eq!(sram.size_of(&7), Ok(5));
}

#[test]
fn put_in_place_counts_no_trip() {
    let mut sram = SRAM::new(16);
    assert!(sram.put(&7, 5, true));
    assert_eq!(sram.trip_count, 0);
    assert_eq!(sram.resident_size, 5);
}

#[test]
fn resident_size_is_the_sum_of_the_sizes() {
    let mut sram = SRAM::new(100);
    sram.put(&3, 10, false);
    sram.put(&1, 20, true);
    sram.put(&2, 30, false);
    let sum: usize = sram.residence.values().sum();
    assert_eq!(sram.resident_size, 60);
    assert_eq!(sram.resident_size, sum);
    assert!(sram.resident_size <= sram.mem_limit);
    assert_eq!(sram.peak_size, 60);
    sram.deallocate(&1);
    let sum: usize = sram.residence.values().sum();
    assert_eq!(sram.resident_size, 40);
    assert_eq!(sram.resident_size, sum);
    assert_eq!(sram.peak_size, 60);
}

#[test]
fn put_may_fill_the_sram_exactly() {
    let mut sram = SRAM::new(8);
    assert!(sram.put(&1, 8, false));
    assert_eq!(sram.size_available(), 0);
}

#[test]
fn size_of_an_absent_tensor_is_an_error() {
    let sram = SRAM::new(8);
    assert_eq!(sram.size_of(&1), Err(()));
    assert!(!sram.contains(&1));
    let dram = DRAM::new();
    assert_eq!(dram.size_of(&1), Err(()));
    assert!(!dram.contains(&1));
}

#[test]
fn to_vec_lists_the_ids_in_ascending_order() {
    let mut sram = SRAM::new(100);
    sram.put(&9, 1, true);
    sram.put(&2, 1, true);
    sram.put(&5, 1, true);
    assert_eq!(sram.to_vec(), vec![2, 5, 9]);
    let mut dram = DRAM::new();
    dram.put(&4, 1, true);
    dram.put(&1, 1, true);
    assert_eq!(dram.to_vec(), vec![1, 4]);
}

#[test]
fn store_without_eviction_keeps_the_tensor() {
    let mut sram = SRAM::new(16);
    let mut dram = DRAM::new();
    sram.put(&1, 6, true);
    sram.store(&1, false, &mut dram);
    assert!(sram.contains(&1));
    assert_eq!(sram.resident_size, 6);
    assert_eq!(sram.trip_count, 1);
    assert!(sram.evict.is_empty());
    assert_eq!(dram.get(&1), 6);
}

#[test]
fn store_with_eviction_frees_the_room() {
    let mut sram = SRAM::new(16);
    let mut dram = DRAM::new();
    sram.put(&1, 6, true);
    sram.put(&2, 4, true);
    sram.store(&1, true, &mut dram);
    assert!(!sram.contains(&1));
    assert!(sram.contains(&2));
    assert_eq!(sram.resident_size, 4);
    assert_eq!(sram.trip_count, 1);
    assert!(sram.evict.contains(&1));
    assert_eq!(dram.get(&1), 6);
    assert_eq!(dram.to_vec(), vec![1]);
}

#[test]
fn deallocate_writes_nothing_to_dram() {
    let mut sram = SRAM::new(16);
    sram.put(&1, 6, false);
    sram.deallocate(&1);
    assert!(!sram.contains(&1));
    assert_eq!(sram.resident_size, 0);
    assert_eq!(sram.trip_count, 1);
    assert!(sram.evict.is_empty());
}

#[test]
fn reset_keeps_only_the_capacity() {
    let mut sram = SRAM::new(16);
    let mut dram = DRAM::new();
    sram.put(&1, 6, false);
    sram.put(&2, 3, false);
    sram.store(&2, true, &mut dram);
    sram.reset();
    assert_eq!(sram.size_total(), 16);
    assert_eq!(sram.resident_size, 0);
    assert_eq!(sram.trip_count, 0);
    assert_eq!(sram.peak_size, 0);
    assert!(sram.to_vec().is_empty());
    assert!(sram.evict.is_empty());
    dram.reset();
    assert!(dram.to_vec().is_empty());
}

#[test]
fn dram_is_unbounded_and_overwrites() {
    let mut dram = DRAM::new();
    assert_eq!(dram.size_allocated(), 0);
    assert_eq!(dram.size_total(), usize::MAX);
    assert_eq!(dram.size_available(), usize::MAX);
    assert!(dram.put(&1, usize::MAX, false));
    assert!(dram.put(&1, 3, true));
    assert_eq!(dram.get(&1), 3);
    assert_eq!(dram.size_allocated(), 0);
}

#[test]
fn dram_store_does_nothing() {
    let mut dram = DRAM::new();
    let mut other = DRAM::new();
    dram.put(&1, 3, true);
    dram.store(&1, true, &mut other);
    assert!(dram.contains(&1));
    assert!(other.to_vec().is_empty());
}

#[test]
fn dram_deallocate_removes_the_tensor() {
    let mut dram = DRAM::new();
    dram.put(&1, 3, true);
    dram.deallocate(&1);
    assert!(!dram.contains(&1));
}

#[test]
fn trip_count_grows_by_one_per_transfer() {
    let mut sram = SRAM::new(32);
    let mut dram = DRAM::new();
    let mut seen = sram.trip_count;
    sram.put(&1, 4, false);
    assert_eq!(sram.trip_count, seen + 1);
    seen = sram.trip_count;
    sram.put(&2, 4, true);
    assert_eq!(sram.trip_count, seen);
    sram.store(&1, false, &mut dram);
    assert_eq!(sram.trip_count, seen + 1);
    seen = sram.trip_count;
    sram.store(&2, true, &mut dram);
    assert_eq!(sram.trip_count, seen + 1);
    seen = sram.trip_count;
    sram.deallocate(&1);
    assert_eq!(sram.trip_count, seen);
}
