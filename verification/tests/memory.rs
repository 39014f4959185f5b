//! Unit tests for the heap, the profiler, the pools and the pointer
//! registry.

use loom_vm::allocator::{ArenaAllocator, MemoryPool};
use loom_vm::heap::MemoryManager;
use loom_vm::profiler::MemoryProfiler;
use loom_vm::smart_pointer::{SmartPointerRegistry, UsagePattern};
use loom_vm::value::Value;

#[test]
fn heap_ids_are_monotonic_and_never_reused() {
    let mut memory = MemoryManager::new();
    let a = memory.allocate_object("A".to_string());
    let b = memory.allocate_object("B".to_string());
    let c = memory.allocate_array("any".to_string(), 2);
    assert_eq!(a, 1);
    assert_eq!(b, 2);
    assert_eq!(c, 1);  // arrays have their own counter
    // Release the second object; its ID stays burned.
    memory.decrement_ref(&Value::Object(b)).unwrap();
    assert!(memory.get_object(b).is_none());
    let d = memory.allocate_object("D".to_string());
    assert_eq!(d, 3);
}

#[test]
fn heap_entries_live_until_release_drives_the_count_to_zero() {
    let mut memory = MemoryManager::new();
    let id = memory.allocate_object("Box".to_string());
    assert_eq!(memory.get_object(id).unwrap().ref_count, 1);
    memory.increment_ref(&Value::Object(id)).unwrap();
    assert_eq!(memory.get_object(id).unwrap().ref_count, 2);
    memory.decrement_ref(&Value::Object(id)).unwrap();
    assert!(memory.get_object(id).is_some());
    memory.decrement_ref(&Value::Object(id)).unwrap();
    assert!(memory.get_object(id).is_none());
    // Releasing a dangling reference or a plain value is a no-op.
    memory.decrement_ref(&Value::Object(id)).unwrap();
    memory.decrement_ref(&Value::Int(5)).unwrap();
}

#[test]
fn heap_field_and_element_writes() {
    let mut memory = MemoryManager::new();
    let obj = memory.allocate_object("P".to_string());
    memory
        .set_object_field(obj, "x", Value::Int(11))
        .unwrap();
    match memory.get_object(obj).unwrap().fields.get("x") {
        Some(Value::Int(11)) => {},
        other => panic!("unexpected field {:?}", other),
    }
    assert!(memory.set_object_field(99, "x", Value::Null).is_err());

    let arr = memory.allocate_array("any".to_string(), 3);
    assert!(matches!(memory.get_array(arr).unwrap().elements[0], Value::Null));
    memory.set_array_element(arr, 2, Value::Bool(true)).unwrap();
    assert!(matches!(memory.get_array(arr).unwrap().elements[2], Value::Bool(true)));
    assert!(memory.set_array_element(arr, 3, Value::Null).is_err());
    assert!(memory.set_array_element(7, 0, Value::Null).is_err());
}

#[test]
fn heap_stats_count_allocations_and_gc_passes() {
    let mut memory = MemoryManager::new();
    memory.allocate_object("A".to_string());
    memory.allocate_array("any".to_string(), 1);
    let before = memory.get_stats();
    assert_eq!(before.total_allocations, 2);
    assert_eq!(before.total_deallocations, 0);
    assert_eq!(before.gc_count, 0);
    memory.decrement_ref(&Value::Object(1)).unwrap();
    memory.gc().unwrap();
    let after = memory.get_stats();
    assert_eq!(after.total_deallocations, 1);
    assert_eq!(after.gc_count, 1);
}

#[test]
fn profiler_counts_events_and_sizes() {
    let mut p = MemoryProfiler::new();
    p.record_allocation(1, "object");
    p.record_allocation_with_size(2, "array", 100);
    let stats = p.get_stats();
    assert_eq!(stats.total_allocations, 2);
    assert_eq!(stats.current_usage, 100);
    assert_eq!(stats.peak_usage, 100);
    assert_eq!(stats.total_bytes_allocated, 100);
    p.record_deallocation_with_size(2, "array", 60);
    let stats = p.get_stats();
    assert_eq!(stats.total_deallocations, 1);
    assert_eq!(stats.current_usage, 40);
    assert_eq!(stats.peak_usage, 100);
    assert_eq!(stats.total_bytes_freed, 60);
    let types = p.get_allocation_types();
    assert_eq!(*types.get("object").unwrap(), 1);
    assert_eq!(*types.get("array").unwrap(), 1);
    let dist = p.get_size_distribution();
    assert_eq!(dist.len(), 1);
    assert_eq!(dist[0], (256, 1));
}

#[test]
fn profiler_bucket_counters_stay_sorted() {
    let mut p = MemoryProfiler::new();
    p.record_allocation_with_size(1, "object", 5000);
    p.record_allocation_with_size(2, "object", 10);
    p.record_allocation_with_size(3, "object", 10);
    p.record_allocation_with_size(4, "object", 300);
    let dist = p.get_size_distribution();
    assert_eq!(dist.as_slice(), &[(64, 2), (1024, 1), (16384, 1)]);
}

#[test]
fn profiler_clear_resets_everything_but_recording() {
    let mut p = MemoryProfiler::new();
    p.record_allocation(1, "object");
    p.clear();
    let stats = p.get_stats();
    assert_eq!(stats.total_allocations, 0);
    assert_eq!(p.get_allocation_types().len(), 0);
    p.set_enabled(false);
    p.record_allocation(2, "object");
    assert_eq!(p.get_stats().total_allocations, 0);
}

#[test]
fn profiler_report_lists_the_counters() {
    let mut p = MemoryProfiler::new();
    p.record_allocation_with_size(1, "object", 32);
    let report = p.generate_report();
    assert!(report.starts_with("Memory Profiler Report\n"));
    assert!(report.contains("Total Allocations: 1"));
    assert!(report.contains("  object: 1\n"));
    assert!(report.contains("  64 bytes: 1\n"));
}

#[test]
fn pool_allocates_blocks_low_offset_first() {
    let mut pool = MemoryPool::new(256, 64);
    let stats = pool.stats();
    assert_eq!(stats.total_blocks, 4);
    assert_eq!(stats.free_blocks, 4);
    assert_eq!(stats.used_blocks, 0);
    assert_eq!(pool.allocate(), Some(0));
    assert_eq!(pool.allocate(), Some(64));
    assert_eq!(pool.stats().used_blocks, 2);
    pool.free(0);
    assert_eq!(pool.allocate(), Some(0));
    assert_eq!(pool.allocate(), Some(128));
    assert_eq!(pool.allocate(), Some(192));
    assert_eq!(pool.allocate(), None);
}

#[test]
fn pool_ignores_out_of_range_frees() {
    let mut pool = MemoryPool::new(128, 64);
    pool.free(4096);
    assert_eq!(pool.stats().free_blocks, 2);
}

#[test]
fn arena_bumps_aligned_offsets_and_resets() {
    let mut arena = ArenaAllocator::new(64);
    assert_eq!(arena.allocate(3), 0);
    assert_eq!(arena.allocate(9), 8);
    assert_eq!(arena.allocate(16), 24);
    // Does not fit in the remaining 24 bytes: a fresh arena begins.
    assert_eq!(arena.allocate(30), 0);
    assert_eq!(arena.allocate(30), 32);
    arena.reset();
    assert_eq!(arena.allocate(1), 0);
}

#[test]
fn registry_hands_out_increasing_ids() {
    let mut reg = SmartPointerRegistry::new();
    let a = reg.register(UsagePattern::Shared);
    let b = reg.register(UsagePattern::Unique);
    assert_eq!(a, 1);
    assert_eq!(b, 2);
    assert_eq!(reg.get_stats(a).unwrap().reference_count, 1);
    assert!(reg.get_stats(99).is_none());
}

#[test]
fn registry_counts_accesses_and_modifications() {
    let mut reg = SmartPointerRegistry::new();
    let id = reg.register(UsagePattern::Temporary);
    reg.record_access(id);
    reg.record_access(id);
    reg.record_modification(id);
    let stats = reg.get_stats(id).unwrap();
    assert_eq!(stats.access_count, 2);
    assert_eq!(stats.modification_count, 1);
    reg.update_ref_count(id, 5);
    assert_eq!(reg.get_stats(id).unwrap().reference_count, 5);
    // Counters for unknown IDs are silently ignored.
    reg.record_access(12345);
}

#[test]
fn registry_recommends_patterns_from_usage() {
    let mut reg = SmartPointerRegistry::new();
    let shared = reg.register(UsagePattern::Temporary);
    reg.update_ref_count(shared, 3);
    assert_eq!(reg.recommend_pattern(shared), Some(UsagePattern::Shared));

    let weak = reg.register(UsagePattern::Temporary);
    assert_eq!(reg.recommend_pattern(weak), Some(UsagePattern::Weak));

    let temp = reg.register(UsagePattern::Temporary);
    reg.record_modification(temp);
    assert_eq!(reg.recommend_pattern(temp), Some(UsagePattern::Temporary));

    let unique = reg.register(UsagePattern::Temporary);
    reg.record_modification(unique);
    for _ in 0..101 {
        reg.record_access(unique);
    }
    assert_eq!(reg.recommend_pattern(unique), Some(UsagePattern::Unique));

    assert_eq!(reg.recommend_pattern(999), None);
}

#[test]
fn registry_cleanup_keeps_recent_entries() {
    let mut reg = SmartPointerRegistry::new();
    let id = reg.register(UsagePattern::Shared);
    reg.cleanup();
    // The entry was just touched, so it survives a cleanup.
    assert!(reg.get_stats(id).is_some());
}
