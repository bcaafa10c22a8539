use memorytracking::callstack::{CallSiteId, Callstack};
use memorytracking::functions::{FunctionId, FunctionLocations};
use memorytracking::interner::CallstackInterner;
use memorytracking::rangemap::RangeMap;
use memorytracking::text::append_decimal;
use memorytracking::tracker::AllocationTracker;
use memorytracking::usage::total_bytes;
use std::collections::HashMap;

fn callstack(i: u32) -> Callstack {
    let mut cs = Callstack::new();
    cs.start_call(0, CallSiteId::new(FunctionId::new(i), 0));
    cs
}

fn vector(values: Vec<usize>) -> im::Vector<usize> {
    im::Vector::from(values)
}

#[test]
fn function_ids_lead_to_functions() {
    let mut functions = FunctionLocations::new();
    let a = functions.add_function("a.py".to_string(), "f".to_string());
    let b = functions.add_function("b.py".to_string(), "g".to_string());
    assert_eq!(a.as_u32(), 0);
    assert_eq!(b.as_u32(), 1);
    assert_eq!(functions.get_function_and_filename(a), ("f", "a.py"));
    assert_eq!(functions.clone().get_function_and_filename(b), ("g", "b.py"));
}

#[test]
fn numbers_in_decimal() {
    for n in [0, 9, 10, 99, 100, 1234567890, usize::MAX] {
        let mut text = "n=".to_string();
        append_decimal(&mut text, n);
        assert_eq!(text, format!("n={}", n));
    }
}

#[test]
fn callstacks_as_text() {
    let mut functions = FunctionLocations::new();
    let f = functions.add_function("a.py".to_string(), "f".to_string());
    let g = functions.add_function("b.py".to_string(), "g".to_string());
    let empty = Callstack::new();
    assert_eq!(empty.as_string(false, &functions), "[No Python stack]");
    assert_eq!(empty.as_string(true, &functions), "[No Python stack]");
    let one = Callstack::from_vec(vec![CallSiteId::new(f, 12)]);
    assert_eq!(one.as_string(false, &functions), "a.py:12 (f)");
    assert_eq!(one.as_string(true, &functions), "a.py:12 (f);TB@@a.py:12@@TB");
    let two = Callstack::from_vec(vec![CallSiteId::new(f, 12), CallSiteId::new(g, 65535)]);
    assert_eq!(two.as_string(false, &functions), "a.py:12 (f);b.py:65535 (g)");
}

#[test]
fn callstacks_are_equal_if_their_calls_are() {
    let mut a = callstack(1);
    let b = callstack(1);
    a.id_for_new_allocation(0, |_| 17);
    assert_eq!(a, b);
    assert_ne!(a, callstack(2));
    assert_ne!(a, Callstack::new());
    let mut c = callstack(1);
    c.id_for_new_allocation(3, |_| 17);
    assert_ne!(b, c);
}

#[test]
fn equal_callstacks_hash_alike() {
    let mut a = callstack(1);
    a.id_for_new_allocation(0, |_| 17);
    let mut seen: HashMap<Callstack, u32> = HashMap::new();
    seen.insert(callstack(1), 1);
    seen.insert(callstack(2), 2);
    assert_eq!(seen.get(&a), Some(&1));
    assert_eq!(seen.get(&callstack(2)), Some(&2));
    assert_eq!(seen.get(&Callstack::new()), None);
}

#[test]
fn remembered_ids_are_reused_on_the_same_line_only() {
    let mut cs = callstack(1);
    assert_eq!(cs.id_for_new_allocation(5, |_| 40), 40);
    assert_eq!(cs.id_for_new_allocation(5, |_| 41), 40);
    assert_eq!(cs.id_for_new_allocation(6, |_| 42), 42);
    assert_eq!(cs.id_for_new_allocation(5, |_| 43), 43);
    cs.start_call(5, CallSiteId::new(FunctionId::new(2), 1));
    cs.finish_call();
    assert_eq!(cs.id_for_new_allocation(5, |_| 44), 44);
    // What is asked for an id sees the new line.
    let mut seen = 0;
    cs.id_for_new_allocation(9, |cs| {
        seen = cs.calls()[0].line_number;
        45
    });
    assert_eq!(seen, 9);
}

#[test]
fn finishing_without_a_call_does_nothing() {
    let mut cs = Callstack::new();
    cs.finish_call();
    assert_eq!(cs, Callstack::new());
    let mut cs = callstack(3);
    cs.start_call(8, CallSiteId::new(FunctionId::new(4), 1));
    cs.finish_call();
    assert_eq!(*cs.calls(), vec![CallSiteId::new(FunctionId::new(3), 8)]);
}

#[test]
fn interned_ids_count_up() {
    let mut interner = CallstackInterner::new();
    for i in 0..50 {
        assert_eq!(interner.intern(&callstack(i)), (i, true));
    }
    for i in 0..50 {
        assert_eq!(interner.intern(&callstack(i)), (i, false));
    }
    let callstacks = interner.get_reverse_map();
    assert_eq!(callstacks.len(), 50);
    for i in 0..50 {
        assert_eq!(callstacks[&i], callstack(i));
    }
}

#[test]
fn interned_callstacks_stay_as_they_were() {
    let mut interner = CallstackInterner::new();
    let mut cs = callstack(1);
    let a = cs.id_for_new_allocation(5, |cs| interner.get_or_insert_id(cs, || ()));
    let b = cs.id_for_new_allocation(6, |cs| interner.get_or_insert_id(cs, || ()));
    // Interning the same calls again changes nothing of what is remembered.
    let mut same = callstack(1);
    same.id_for_new_allocation(7, |_| 70);
    same.id_for_new_allocation(6, |cs| interner.get_or_insert_id(cs, || ()));
    let callstacks = interner.get_reverse_map();
    // The first was interned before it remembered anything.
    let mut first = callstacks[&a].clone();
    assert_eq!(first.calls()[0].line_number, 5);
    assert_eq!(first.id_for_new_allocation(5, |_| 99), 99);
    // The second was interned while it remembered the id for line 5.
    let mut second = callstacks[&b].clone();
    assert_eq!(second.calls()[0].line_number, 6);
    assert_eq!(second.id_for_new_allocation(5, |_| 99), a);
}

#[test]
fn seen_callstacks_are_known() {
    let mut tracker = AllocationTracker::new("here".to_string());
    assert_eq!(tracker.default_path(), "here");
    assert!(!tracker.knows_callstack(&callstack(0)));
    tracker.get_callstack_id(&callstack(0));
    assert!(tracker.knows_callstack(&callstack(0)));
    assert!(!tracker.knows_callstack(&callstack(1)));
    assert!(!tracker.knows_callstack(&Callstack::new()));
    tracker.reset("there".to_string());
    assert_eq!(tracker.default_path(), "there");
    assert!(tracker.knows_callstack(&callstack(0)));
}

#[test]
fn removing_cuts_ranges() {
    let mut map: RangeMap<u32> = RangeMap::new();
    map.add(100, 100, 1);
    map.add(300, 50, 2);
    map.add(400, 0, 3);
    assert_eq!(map.size(), 150);
    assert_eq!(map.as_hashmap().len(), 2);
    // Nothing there:
    assert_eq!(map.remove(200, 100), vec![]);
    // The middle of a range:
    assert_eq!(map.remove(120, 30), vec![(1, 30)]);
    assert_eq!(map.size(), 120);
    assert_eq!(map.as_hashmap()[&100], (20, 1));
    assert_eq!(map.as_hashmap()[&150], (50, 1));
    // The end of one range, and the start of another:
    assert_eq!(map.remove(190, 120), vec![(1, 10), (2, 10)]);
    assert_eq!(map.as_hashmap()[&310], (40, 2));
    // Beyond the last address:
    assert_eq!(map.remove(0, usize::MAX), vec![(1, 20), (1, 40), (2, 40)]);
    assert_eq!(map.remove(usize::MAX, usize::MAX), vec![]);
    assert_eq!(map.size(), 0);
}

#[test]
fn adding_and_removing_a_range_leaves_no_trace() {
    let mut map: RangeMap<u32> = RangeMap::new();
    map.add(0, 10, 1);
    map.add(10, 10, 2);
    assert_eq!(map.remove(10, 10), vec![(2, 10)]);
    assert_eq!(map.size(), 10);
    assert_eq!(map.as_hashmap()[&0], (10, 1));
    assert_eq!(map.as_hashmap().len(), 1);
}

#[test]
fn overlapping_ranges_count_twice() {
    let mut map: RangeMap<u32> = RangeMap::new();
    map.add(0, 10, 1);
    map.add(5, 10, 2);
    assert_eq!(map.size(), 20);
    assert_eq!(map.remove(5, 5), vec![(1, 5), (2, 5)]);
    assert_eq!(map.size(), 10);
}

#[test]
fn sums_of_byte_counts() {
    assert_eq!(total_bytes(&im::Vector::new()), 0);
    assert_eq!(total_bytes(&vector(vec![1, 20, 300])), 321);
}

#[test]
fn allocations_are_found_by_address() {
    let mut tracker = AllocationTracker::new(".".to_string());
    let id = tracker.get_callstack_id(&callstack(0));
    assert_eq!(tracker.get_allocation_size(1), 0);
    assert_eq!(tracker.add_allocation(1, 1000, id), None);
    assert_eq!(tracker.add_allocation(2, 77, id), None);
    assert_eq!(tracker.get_allocation_size(1), 1000);
    assert_eq!(tracker.get_allocation_size(2), 77);
    tracker.free_allocation(1);
    assert_eq!(tracker.get_allocation_size(1), 0);
    assert_eq!(tracker.get_allocation_size(2), 77);
}

#[test]
fn disappeared_allocations_are_cleaned_up() {
    let mut tracker = AllocationTracker::new(".".to_string());
    let a = tracker.get_callstack_id(&callstack(0));
    let b = tracker.get_callstack_id(&callstack(1));
    tracker.add_allocation(1, 1000, a);
    assert_eq!(tracker.add_allocation(1, 10, b), Some(1000));
    assert_eq!(*tracker.current_memory_usage(), vector(vec![0, 10]));
    assert_eq!(tracker.get_current_allocated_bytes(), 10);
    tracker.check_if_new_peak();
    // The 1000 bytes went before a peak was looked for.
    assert_eq!(tracker.get_peak_allocated_bytes(), 10);
    assert!(tracker.validate());
}

#[test]
fn freeing_what_is_not_known_changes_nothing() {
    let mut tracker = AllocationTracker::new(".".to_string());
    let id = tracker.get_callstack_id(&callstack(0));
    tracker.add_allocation(1, 1000, id);
    tracker.free_allocation(2);
    tracker.free_anon_mmap(1, 1000);
    assert_eq!(*tracker.current_memory_usage(), vector(vec![1000]));
    assert_eq!(tracker.get_current_allocated_bytes(), 1000);
    // But a peak is noticed.
    assert_eq!(tracker.get_peak_allocated_bytes(), 1000);
}

#[test]
fn freeing_undoes_adding() {
    let mut tracker = AllocationTracker::new(".".to_string());
    let a = tracker.get_callstack_id(&callstack(0));
    let b = tracker.get_callstack_id(&callstack(1));
    tracker.add_allocation(1, 1000, a);
    tracker.add_anon_mmap(5000, 500, b);
    tracker.add_allocation(2, 3 << 31, b);
    tracker.free_allocation(2);
    assert_eq!(*tracker.current_memory_usage(), vector(vec![1000, 500]));
    tracker.add_anon_mmap(6000, 600, a);
    tracker.free_anon_mmap(6000, 600);
    assert_eq!(*tracker.current_memory_usage(), vector(vec![1000, 500]));
    assert_eq!(tracker.get_current_allocated_bytes(), 1500);
    assert!(tracker.validate());
    tracker.add_anon_mmap(7000, 0, a);
    tracker.free_anon_mmap(7000, 0);
    assert_eq!(*tracker.current_memory_usage(), vector(vec![1000, 500]));
}

#[test]
fn the_peak_is_the_most_ever_held() {
    let mut tracker = AllocationTracker::new(".".to_string());
    let id = tracker.get_callstack_id(&callstack(0));
    let mut most = 0;
    for i in 0..100 {
        tracker.add_allocation(i, (i * 37) % 101, id);
        most = std::cmp::max(most, tracker.get_current_allocated_bytes());
        tracker.add_anon_mmap(i * 1000, (i * 53) % 97, id);
        most = std::cmp::max(most, tracker.get_current_allocated_bytes());
        if i % 3 == 2 {
            tracker.free_allocation(i - 2);
            tracker.free_anon_mmap((i - 1) * 1000, 40);
        }
        if i % 10 == 9 {
            tracker.free_anon_mmap(0, i * 900);
        }
    }
    tracker.check_if_new_peak();
    assert_eq!(tracker.get_peak_allocated_bytes(), most);
    assert_eq!(total_bytes(tracker.peak_memory_usage()), most);
    assert!(tracker.validate());
}

#[test]
fn validation_fails_until_the_peak_is_looked_for() {
    let mut tracker = AllocationTracker::new(".".to_string());
    assert!(tracker.validate());
    let id = tracker.get_callstack_id(&callstack(0));
    assert!(tracker.validate());
    tracker.add_allocation(1, 1000, id);
    assert!(!tracker.validate());
    tracker.check_if_new_peak();
    assert!(tracker.validate());
}

#[test]
fn breaking_the_glass_keeps_what_is_held_now() {
    let mut tracker = AllocationTracker::new(".".to_string());
    let id = tracker.get_callstack_id(&callstack(0));
    tracker.add_allocation(1, 1000, id);
    tracker.add_anon_mmap(5000, 500, id);
    tracker.check_if_new_peak();
    tracker.oom_break_glass();
    assert!(tracker.current_allocations().is_empty());
    assert!(tracker.peak_memory_usage().is_empty());
    assert_eq!(*tracker.current_memory_usage(), vector(vec![1500]));
    assert_eq!(tracker.get_current_allocated_bytes(), 1500);
    assert_eq!(tracker.get_peak_allocated_bytes(), 1500);
    assert_eq!(tracker.current_anon_mmaps().size(), 500);
    assert!(!tracker.validate());
    let now = tracker.combine_callstacks(false);
    assert_eq!(now.get(&id), Some(&1500));
    assert!(tracker.combine_callstacks(true).is_empty());
}

#[test]
fn a_reset_keeps_callstack_ids() {
    let mut tracker = AllocationTracker::new("here".to_string());
    let mut cs = callstack(1);
    let a = tracker.get_callstack_id(&callstack(0));
    let b = cs.id_for_new_allocation(4, |cs| tracker.get_callstack_id(cs));
    tracker.add_allocation(1, 1000, a);
    tracker.add_anon_mmap(5000, 500, b);
    tracker.free_allocation(1);
    tracker.reset("there".to_string());
    assert!(tracker.validate());
    assert_eq!(tracker.get_current_allocated_bytes(), 0);
    assert_eq!(tracker.get_peak_allocated_bytes(), 0);
    assert_eq!(*tracker.current_memory_usage(), vector(vec![0, 0]));
    assert!(tracker.peak_memory_usage().is_empty());
    assert!(tracker.current_allocations().is_empty());
    assert_eq!(tracker.current_anon_mmaps().size(), 0);
    assert_eq!(tracker.get_callstack_id(&callstack(0)), a);
    assert_eq!(tracker.get_callstack_id(&cs), b);
    assert_eq!(cs.id_for_new_allocation(4, |_| 99), b);
    assert_eq!(tracker.get_callstack_id(&callstack(2)), 2);
    tracker.add_allocation(1, 7, b);
    assert_eq!(*tracker.current_memory_usage(), vector(vec![0, 7, 0]));
}

#[test]
fn many_callstacks_have_byte_counts_of_their_own() {
    let mut tracker = AllocationTracker::new(".".to_string());
    for i in 0..2000usize {
        let id = tracker.get_callstack_id(&callstack(i as u32));
        assert_eq!(id as usize, i);
        tracker.add_allocation(i, i, id);
    }
    for i in 0..2000usize {
        assert_eq!(tracker.current_memory_usage()[i], i);
    }
    tracker.free_allocation(1234);
    assert_eq!(tracker.current_memory_usage()[1234], 0);
    assert_eq!(tracker.peak_memory_usage()[1234], 1234);
}
