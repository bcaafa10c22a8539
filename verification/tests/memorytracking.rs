use ahash::RandomState;
use memorytracking::callstack::{CallSiteId, Callstack};
use memorytracking::functions::FunctionId;
use memorytracking::interner::CallstackInterner;
use memorytracking::tracker::AllocationTracker;
use std::collections::HashMap;

fn vector(values: Vec<usize>) -> im::Vector<usize> {
    im::Vector::from(values)
}

#[test]
fn callstack_line_numbers() {
    let fid1 = FunctionId::new(1u32);
    let fid3 = FunctionId::new(3u32);
    let fid5 = FunctionId::new(5u32);

    // Parent line number does nothing if it's first call:
    let mut cs1 = Callstack::new();
    let id1 = CallSiteId::new(fid1, 2);
    let id2 = CallSiteId::new(fid3, 45);
    let id3 = CallSiteId::new(fid5, 6);
    cs1.start_call(123, id1);
    assert_eq!(*cs1.calls(), vec![id1]);

    // Parent line number does nothing if it's 0:
    cs1.start_call(0, id2);
    assert_eq!(*cs1.calls(), vec![id1, id2]);

    // Parent line number overrides previous level if it's non-0:
    let mut cs2 = Callstack::new();
    cs2.start_call(0, id1);
    cs2.start_call(10, id2);
    cs2.start_call(12, id3);
    assert_eq!(
        *cs2.calls(),
        vec![CallSiteId::new(fid1, 10), CallSiteId::new(fid3, 12), id3]
    );
}

#[test]
fn callstackinterner_notices_duplicates() {
    let fid1 = FunctionId::new(1u32);
    let fid3 = FunctionId::new(3u32);

    let mut cs1 = Callstack::new();
    cs1.start_call(0, CallSiteId::new(fid1, 2));
    let cs1b = cs1.clone();
    let mut cs2 = Callstack::new();
    cs2.start_call(0, CallSiteId::new(fid3, 4));
    let cs3 = Callstack::new();
    let cs3b = Callstack::new();

    let mut interner = CallstackInterner::new();

    let mut new = false;
    let id1 = interner.get_or_insert_id(&cs1, || new = true);
    assert!(new);

    new = false;
    let id1b = interner.get_or_insert_id(&cs1b, || new = true);
    assert!(!new);

    new = false;
    let id2 = interner.get_or_insert_id(&cs2, || new = true);
    assert!(new);

    new = false;
    let id3 = interner.get_or_insert_id(&cs3, || new = true);
    assert!(new);

    new = false;
    let id3b = interner.get_or_insert_id(&cs3b, || new = true);
    assert!(!new);

    assert_eq!(id1, id1b);
    assert_ne!(id1, id2);
    assert_ne!(id1, id3);
    assert_ne!(id2, id3);
    assert_eq!(id3, id3b);
    let mut expected: HashMap<u32, Callstack, RandomState> = HashMap::default();
    expected.insert(id1, cs1);
    expected.insert(id2, cs2);
    expected.insert(id3, cs3);
    assert_eq!(interner.get_reverse_map(), expected);
}

#[test]
fn callstack_id_for_new_allocation() {
    let mut interner = CallstackInterner::new();

    let mut cs1 = Callstack::new();
    let id0 = cs1.id_for_new_allocation(0, |cs| interner.get_or_insert_id(cs, || ()));
    let id0b = cs1.id_for_new_allocation(0, |cs| interner.get_or_insert_id(cs, || ()));
    assert_eq!(id0, id0b);

    let fid1 = FunctionId::new(1u32);

    cs1.start_call(0, CallSiteId::new(fid1, 2));
    let id1 = cs1.id_for_new_allocation(1, |cs| interner.get_or_insert_id(cs, || ()));
    let id2 = cs1.id_for_new_allocation(2, |cs| interner.get_or_insert_id(cs, || ()));
    let id1b = cs1.id_for_new_allocation(1, |cs| interner.get_or_insert_id(cs, || ()));
    assert_eq!(id1, id1b);
    assert_ne!(id2, id0);
    assert_ne!(id2, id1);

    cs1.start_call(3, CallSiteId::new(fid1, 2));
    let id3 = cs1.id_for_new_allocation(4, |cs| interner.get_or_insert_id(cs, || ()));
    assert_ne!(id3, id0);
    assert_ne!(id3, id1);
    assert_ne!(id3, id2);

    cs1.finish_call();
    let id2b = cs1.id_for_new_allocation(2, |cs| interner.get_or_insert_id(cs, || ()));
    assert_eq!(id2, id2b);
    let id1c = cs1.id_for_new_allocation(1, |cs| interner.get_or_insert_id(cs, || ()));
    assert_eq!(id1, id1c);

    // Check for cache invalidation in start_call:
    cs1.start_call(1, CallSiteId::new(fid1, 1));
    let id4 = cs1.id_for_new_allocation(1, |cs| interner.get_or_insert_id(cs, || ()));
    assert_ne!(id4, id0);
    assert_ne!(id4, id1);
    assert_ne!(id4, id2);
    assert_ne!(id4, id3);

    // Check for cache invalidation in finish_call:
    cs1.finish_call();
    let id1d = cs1.id_for_new_allocation(1, |cs| interner.get_or_insert_id(cs, || ()));
    assert_eq!(id1, id1d);
}

#[test]
fn peak_allocations_only_updated_on_new_peaks() {
    let fid1 = FunctionId::new(1u32);
    let fid3 = FunctionId::new(3u32);

    let mut tracker = AllocationTracker::new(".".to_string());
    let mut cs1 = Callstack::new();
    cs1.start_call(0, CallSiteId::new(fid1, 2));
    let mut cs2 = Callstack::new();
    cs2.start_call(0, CallSiteId::new(fid3, 4));

    let cs1_id = tracker.get_callstack_id(&cs1);

    tracker.add_allocation(1, 1000, cs1_id);
    tracker.check_if_new_peak();
    // Peak should now match current allocations:
    assert_eq!(*tracker.current_memory_usage(), vector(vec![1000]));
    assert_eq!(tracker.current_memory_usage(), tracker.peak_memory_usage());
    assert_eq!(tracker.get_peak_allocated_bytes(), 1000);
    let previous_peak = tracker.peak_memory_usage().clone();

    // Free the allocation:
    tracker.free_allocation(1);
    assert_eq!(tracker.get_current_allocated_bytes(), 0);
    assert_eq!(*tracker.current_memory_usage(), vector(vec![0]));
    assert_eq!(previous_peak, *tracker.peak_memory_usage());
    assert_eq!(tracker.get_peak_allocated_bytes(), 1000);

    // Add allocation, still less than 1000:
    tracker.add_allocation(3, 123, cs1_id);
    assert_eq!(*tracker.current_memory_usage(), vector(vec![123]));
    tracker.check_if_new_peak();
    assert_eq!(previous_peak, *tracker.peak_memory_usage());
    assert_eq!(tracker.get_peak_allocated_bytes(), 1000);

    // Add allocation that goes past previous peak
    let cs2_id = tracker.get_callstack_id(&cs2);
    tracker.add_allocation(2, 2000, cs2_id);
    tracker.check_if_new_peak();
    assert_eq!(*tracker.current_memory_usage(), vector(vec![123, 2000]));
    assert_eq!(tracker.current_memory_usage(), tracker.peak_memory_usage());
    assert_eq!(tracker.get_peak_allocated_bytes(), 2123);
    let previous_peak = tracker.peak_memory_usage().clone();

    // Add anonymous mmap() that doesn't go past previous peak:
    tracker.free_allocation(2);
    assert_eq!(*tracker.current_memory_usage(), vector(vec![123, 0]));
    tracker.add_anon_mmap(50000, 1000, cs2_id);
    assert_eq!(*tracker.current_memory_usage(), vector(vec![123, 1000]));
    tracker.check_if_new_peak();
    assert_eq!(tracker.get_current_allocated_bytes(), 1123);
    assert_eq!(tracker.get_peak_allocated_bytes(), 2123);
    assert_eq!(*tracker.peak_memory_usage(), previous_peak);
    assert_eq!(tracker.current_allocations().len(), 1);
    assert!(tracker.current_allocations().contains_key(&3));
    assert!(tracker.current_anon_mmaps().size() > 0);

    // Add anonymous mmap() that does go past previous peak:
    tracker.add_anon_mmap(600000, 2000, cs2_id);
    assert_eq!(*tracker.current_memory_usage(), vector(vec![123, 3000]));
    tracker.check_if_new_peak();
    assert_eq!(tracker.current_memory_usage(), tracker.peak_memory_usage());
    assert_eq!(tracker.get_current_allocated_bytes(), 3123);
    assert_eq!(tracker.get_peak_allocated_bytes(), 3123);

    // Remove mmap():
    tracker.free_anon_mmap(50000, 1000);
    assert_eq!(*tracker.current_memory_usage(), vector(vec![123, 2000]));
    tracker.check_if_new_peak();
    assert_eq!(tracker.get_current_allocated_bytes(), 2123);
    assert_eq!(tracker.get_peak_allocated_bytes(), 3123);
    assert_eq!(tracker.current_anon_mmaps().size(), 2000);
    assert!(tracker
        .current_anon_mmaps()
        .as_hashmap()
        .contains_key(&600000));

    // Partial removal of anonmyous mmap():
    tracker.free_anon_mmap(600100, 1000);
    assert_eq!(*tracker.current_memory_usage(), vector(vec![123, 1000]));
    assert_eq!(tracker.get_current_allocated_bytes(), 1123);
    assert_eq!(tracker.get_peak_allocated_bytes(), 3123);
    assert_eq!(tracker.current_anon_mmaps().size(), 1000);
    tracker.check_if_new_peak();
    assert!(tracker.validate());
}

#[test]
fn combine_callstacks_and_sum_allocations() {
    let mut tracker = AllocationTracker::new(".".to_string());
    let fid1 = tracker
        .functions
        .add_function("a".to_string(), "af".to_string());
    let fid2 = tracker
        .functions
        .add_function("b".to_string(), "bf".to_string());
    let fid3 = tracker
        .functions
        .add_function("c".to_string(), "cf".to_string());

    let id1 = CallSiteId::new(fid1, 1);
    // Same function, different line number - should be different item:
    let id1_different = CallSiteId::new(fid1, 7);
    let id2 = CallSiteId::new(fid2, 2);

    let id3 = CallSiteId::new(fid3, 3);
    let mut cs1 = Callstack::new();
    cs1.start_call(0, id1);
    cs1.start_call(0, id2.clone());
    let mut cs2 = Callstack::new();
    cs2.start_call(0, id3);
    let mut cs3 = Callstack::new();
    cs3.start_call(0, id1_different);
    cs3.start_call(0, id2);
    let cs1_id = tracker.get_callstack_id(&cs1);
    let cs2_id = tracker.get_callstack_id(&cs2);
    let cs3_id = tracker.get_callstack_id(&cs3);
    tracker.add_allocation(1, 1000, cs1_id);
    tracker.add_allocation(2, 234, cs2_id);
    tracker.add_anon_mmap(3, 50000, cs1_id);
    tracker.add_allocation(4, 6000, cs3_id);

    // 234 allocation is too small, below the 99% total allocations
    // threshold, but we always guarantee at least 100 allocations.
    let mut expected = vec![
        "a:1 (af);TB@@a:1@@TB;b:2 (bf);TB@@b:2@@TB 51000".to_string(),
        "c:3 (cf);TB@@c:3@@TB 234".to_string(),
        "a:7 (af);TB@@a:7@@TB;b:2 (bf);TB@@b:2@@TB 6000".to_string(),
    ];
    let mut result: Vec<String> = tracker.to_lines(true, true);
    result.sort();
    expected.sort();
    assert_eq!(expected, result);

    let mut expected2 = vec![
        "a:1 (af);b:2 (bf) 51000",
        "c:3 (cf) 234",
        "a:7 (af);b:2 (bf) 6000",
    ];
    let mut result2: Vec<String> = tracker.to_lines(true, false);
    result2.sort();
    expected2.sort();
    assert_eq!(expected2, result2);
}
