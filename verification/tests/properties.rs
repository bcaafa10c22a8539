use memorytracking::allocation::{Allocation, HIGH_32BIT, MIB};
use memorytracking::callstack::{CallSiteId, Callstack};
use memorytracking::filter::filter_to_useful_callstacks;
use memorytracking::functions::FunctionId;
use memorytracking::tracker::AllocationTracker;

/// Numbers that look random and are the same in every run.
struct Numbers(u64);

impl Numbers {
    fn below(&mut self, limit: usize) -> usize {
        self.0 = self
            .0
            .wrapping_mul(6364136223846793005)
            .wrapping_add(1442695040888963407);
        ((self.0 >> 20) as usize) % limit
    }

    fn sizes(&mut self, least: usize, most: usize) -> Vec<usize> {
        let count = least + self.below(most - least);
        (0..count).map(|_| 1 + self.below(999)).collect()
    }

    /// Up to four different indices below 10.
    fn indices(&mut self) -> Vec<usize> {
        let mut indices: Vec<usize> = (0..1 + self.below(4)).map(|_| self.below(10)).collect();
        indices.sort();
        indices.dedup();
        indices
    }
}

fn callstack(i: usize) -> Callstack {
    let mut cs = Callstack::new();
    cs.start_call(0, CallSiteId::new(FunctionId::new(i as u32), 0));
    cs
}

// Allocation sizes smaller than 2 ** 31 are round-tripped.
#[test]
fn small_allocation() {
    let mut numbers = Numbers(1);
    let edges = vec![0, 1, MIB, HIGH_32BIT as usize - 2, HIGH_32BIT as usize - 1];
    let random: Vec<usize> = (0..1000)
        .map(|_| numbers.below(HIGH_32BIT as usize - 1))
        .collect();
    for size in edges.into_iter().chain(random) {
        let allocation = Allocation::new(0, size);
        assert_eq!(size, allocation.size());
    }
}

// Allocation sizes larger than 2 ** 31 are stored as MiBs, with some
// loss of resolution.
#[test]
fn large_allocation() {
    let mut numbers = Numbers(2);
    let high = HIGH_32BIT as usize;
    let edges = vec![high, high + 1, high + MIB / 2, high + MIB, (1 << 50) - 1];
    let random: Vec<usize> = (0..1000)
        .map(|_| high + numbers.below((1 << 44) - high) * 64)
        .collect();
    for size in edges.into_iter().chain(random) {
        let allocation = Allocation::new(0, size);
        let result_size = allocation.size();
        let diff = if size < result_size {
            result_size - size
        } else {
            size - result_size
        };
        assert!(diff <= MIB / 2);
    }
}

#[test]
fn large_allocations_round_half_up() {
    let high = HIGH_32BIT as usize;
    assert_eq!(Allocation::new(7, high).compressed_size, HIGH_32BIT + 2048);
    assert_eq!(Allocation::new(7, high).callstack_id, 7);
    assert_eq!(Allocation::new(0, high).size(), high);
    assert_eq!(Allocation::new(0, high + MIB / 2 - 1).size(), high);
    assert_eq!(Allocation::new(0, high + MIB / 2).size(), high + MIB);
    assert_eq!(Allocation::new(0, high - 1).compressed_size, HIGH_32BIT - 1);
}

#[test]
fn huge_allocations_keep_the_low_bits_of_their_mibs() {
    // 2 ** 31 MiB and 5 more: the number of MiBs does not fit in 31 bits.
    let size: usize = (1usize << 51) + 5 * MIB;
    assert_eq!(Allocation::new(0, size).size(), 5 * MIB);
}

#[test]
fn correct_allocation_size_tracked() {
    let mut numbers = Numbers(3);
    let edges = vec![1, 2, (1 << 31) - 1, 1 << 31, (1 << 50) - 1];
    let random: Vec<usize> = (0..200)
        .map(|_| {
            let bits = 1 + numbers.below(44);
            1 + numbers.below(1 << bits) * 64
        })
        .collect();
    for size in edges.into_iter().chain(random) {
        let mut tracker = AllocationTracker::new(".".to_string());
        let cs_id = tracker.get_callstack_id(&Callstack::new());
        tracker.add_allocation(0, size, cs_id);
        tracker.add_anon_mmap(1, size * 2, cs_id);
        // We don't track (large) allocations exactly right, but they should
        // be quite close:
        let ratio = ((size * 3) as f64) / (tracker.current_memory_usage()[0] as f64);
        assert!(0.999 < ratio);
        assert!(ratio < 1.001);
        tracker.free_allocation(0);
        tracker.free_anon_mmap(1, size * 2);
        // Once we've freed everything, it should be _exactly_ 0.
        assert_eq!(&im::Vector::from(vec![0]), tracker.current_memory_usage());
        tracker.check_if_new_peak();
        assert!(tracker.validate());
    }
}

#[test]
fn current_allocated_matches_sum_of_allocations() {
    let mut numbers = Numbers(4);
    for _ in 0..100 {
        // Allocated bytes. Will use index as the memory address.
        let allocated_sizes = numbers.sizes(10, 20);
        // Allocations to free.
        let free_indices = numbers.indices();
        let mut tracker = AllocationTracker::new(".".to_string());
        let mut expected_memory_usage: im::Vector<usize> = im::Vector::new();
        for i in 0..allocated_sizes.len() {
            let cs_id = tracker.get_callstack_id(&callstack(i));
            tracker.add_allocation(i, allocated_sizes[i], cs_id);
            expected_memory_usage.push_back(allocated_sizes[i]);
        }
        let mut expected_sum: usize = allocated_sizes.iter().sum();
        let expected_peak: usize = expected_sum;
        assert_eq!(tracker.get_current_allocated_bytes(), expected_sum);
        assert_eq!(tracker.current_memory_usage(), &expected_memory_usage);
        for i in free_indices.iter() {
            expected_sum -= allocated_sizes[*i];
            tracker.free_allocation(*i);
            expected_memory_usage[*i] -= allocated_sizes[*i];
            assert_eq!(tracker.get_current_allocated_bytes(), expected_sum);
            assert_eq!(tracker.current_memory_usage(), &expected_memory_usage);
        }
        assert_eq!(tracker.get_peak_allocated_bytes(), expected_peak);
        tracker.check_if_new_peak();
        assert!(tracker.validate());
    }
}

#[test]
fn current_allocated_anon_maps_matches_sum_of_allocations() {
    let mut numbers = Numbers(5);
    for _ in 0..100 {
        // Allocated bytes.
        let allocated_sizes = numbers.sizes(10, 20);
        // Allocations to free.
        let free_indices = numbers.indices();
        let mut tracker = AllocationTracker::new(".".to_string());
        let mut expected_memory_usage: im::Vector<usize> = im::Vector::new();
        // Make sure addresses don't overlap:
        let addresses: Vec<usize> = (0..allocated_sizes.len()).map(|i| i * 10000).collect();
        for i in 0..allocated_sizes.len() {
            let csid = tracker.get_callstack_id(&callstack(i));
            tracker.add_anon_mmap(addresses[i], allocated_sizes[i], csid);
            expected_memory_usage.push_back(allocated_sizes[i]);
        }
        let mut expected_sum: usize = allocated_sizes.iter().sum();
        let expected_peak: usize = expected_sum;
        assert_eq!(tracker.get_current_allocated_bytes(), expected_sum);
        assert_eq!(tracker.current_memory_usage(), &expected_memory_usage);
        for i in free_indices.iter() {
            expected_sum -= allocated_sizes[*i];
            tracker.free_anon_mmap(addresses[*i], allocated_sizes[*i]);
            expected_memory_usage[*i] -= allocated_sizes[*i];
            assert_eq!(tracker.get_current_allocated_bytes(), expected_sum);
            assert_eq!(tracker.current_memory_usage(), &expected_memory_usage);
        }
        assert_eq!(tracker.get_peak_allocated_bytes(), expected_peak);
        tracker.check_if_new_peak();
        assert!(tracker.validate());
    }
}

#[test]
fn filtering_of_callstacks() {
    let mut numbers = Numbers(6);
    for _ in 0..50 {
        let allocated_sizes = numbers.sizes(5, 5000);
        let total_size: usize = allocated_sizes.iter().sum();
        let filtered = filter_to_useful_callstacks(&im::Vector::from(allocated_sizes));
        let filtered_size = filtered.values().sum::<usize>() as f64;
        assert!(filtered_size >= 0.99 * (total_size as f64));
        if filtered.len() > 100 {
            // Removing any item should take us below 99%
            for value in filtered.values() {
                assert!(filtered_size - (*value as f64) < 0.99 * (total_size as f64));
            }
        }
    }
}

#[test]
fn filtering_drops_callstacks_without_memory() {
    let filtered = filter_to_useful_callstacks(&im::Vector::from(vec![0, 5, 0, 7]));
    assert_eq!(filtered.len(), 2);
    assert_eq!(filtered.get(&1), Some(&5));
    assert_eq!(filtered.get(&3), Some(&7));
    let none: im::Vector<usize> = im::Vector::new();
    assert!(filter_to_useful_callstacks(&none).is_empty());
}

#[test]
fn filtering_keeps_100_callstacks_whatever_they_hold() {
    // One callstack holds nearly everything, and 149 hold next to nothing.
    let mut sizes: Vec<usize> = vec![1; 150];
    sizes[77] = 1_000_000;
    let filtered = filter_to_useful_callstacks(&im::Vector::from(sizes));
    assert_eq!(filtered.len(), 100);
    assert_eq!(filtered.get(&77), Some(&1_000_000));
    // Of callstacks that hold as much as each other the first come first.
    for id in 0..150 {
        assert_eq!(filtered.contains_key(&id), id < 100);
    }
}

#[test]
fn filtering_stops_at_99_percent() {
    // 99% of 1000 equal callstacks are 990 callstacks.
    let filtered = filter_to_useful_callstacks(&im::Vector::from(vec![3usize; 1000]));
    assert_eq!(filtered.len(), 990);
    assert!(filtered.contains_key(&989));
    assert!(!filtered.contains_key(&990));
}

#[test]
fn filtering_starts_with_the_largest() {
    let sizes: Vec<usize> = (0..200).map(|i| 1 + i * i).collect();
    let filtered = filter_to_useful_callstacks(&im::Vector::from(sizes.clone()));
    let least = *filtered.values().min().unwrap();
    for (id, size) in sizes.iter().enumerate() {
        assert_eq!(filtered.contains_key(&(id as u32)), *size >= least);
    }
}
