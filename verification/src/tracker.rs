//! Keeping track of allocations and mappings, and of the peak.

use crate::allocation::{allocation_of, remembered_size, Allocation, MIB};
use crate::callstack::{calls_known, Callstack, CallstackId};
use crate::filter::filter_to_useful_callstacks;
use crate::functions::{FunctionId, FunctionLocations, FunctionName};
use crate::hashing::{
    lists_entries, map_get, map_insert, map_iter, map_remove, map_shrink_to_fit, new_hashmap,
};
use crate::interner::CallstackInterner;
use crate::rangemap::{lost_size, lost_with, RangeMap};
use crate::report::{is_dump, line_text, lines_known, lines_text, with_suffix, FlamegraphDump};
use crate::state::{
    allocated_bytes, any_bytes, lemma_add_allocation, lemma_add_anon_mmap,
    lemma_check_if_new_peak, lemma_forget_allocation, lemma_free_anon_mmap, lemma_held,
    lemma_initial, lemma_lost_is_held, lemma_oom_break_glass, lemma_reset, lemma_see_callstack,
    lemma_see_function, lemma_weigh_remove, lemma_without_first_lost, size_at, with_less, with_more,
    without_lost, TrackerState,
};
use crate::text::{append_decimal, texts};
use crate::usage::{
    lemma_total_update, slots, total_bytes, vector_clear, vector_clone_from, vector_index,
    vector_index_mut, vector_len, vector_new, vector_push_back,
};
use ahash::RandomState;
use im::Vector as ImVector;
use std::collections::HashMap;
use vstd::prelude::*;
use vstd::string::*;

verus! {

/// The exit status of a process that ran out of memory.
pub const OOM_EXIT_STATUS: i32 = 53;

/// The main data structure tracking everything.
pub struct AllocationTracker {
    // malloc()/calloc():
    current_allocations: HashMap<usize, Allocation, RandomState>,
    // anonymous mmap(), i.e. not file backed:
    current_anon_mmaps: RangeMap<CallstackId>,
    /// Maps FunctionIds to function + filename strings, so that we can store the former and save
    /// memory.
    pub functions: FunctionLocations,
    // Maps CallstackIds to Callstacks, so that we can store the former and save memory:
    interner: CallstackInterner,
    // Both malloc() and mmap():
    current_memory_usage: ImVector<usize>,  // Map CallstackId -> total memory usage
    peak_memory_usage: ImVector<usize>,  // Map CallstackId -> total memory usage
    current_allocated_bytes: usize,
    peak_allocated_bytes: usize,
    // Default directory to write out data lacking other info:
    default_path: String,
}

impl View for AllocationTracker {
    type V = TrackerState;

    closed spec fn view(&self) -> TrackerState {
        TrackerState {
            allocations: self.current_allocations@,
            mmaps: self.current_anon_mmaps@,
            functions: self.functions@,
            callstacks: self.interner@,
            usage: slots(self.current_memory_usage),
            peak_usage: slots(self.peak_memory_usage),
            current_bytes: self.current_allocated_bytes as nat,
            peak_bytes: self.peak_allocated_bytes as nat,
            default_path: self.default_path@,
        }
    }
}

impl AllocationTracker {
    /// The interner is well formed.
    pub closed spec fn interner_wf(&self) -> bool {
        self.interner.wf()
    }

    /// The tracker is well formed.
    pub open spec fn wf(&self) -> bool {
        self.interner_wf() && self@.wf()
    }

    pub fn new(default_path: String) -> (tracker: AllocationTracker)
        ensures
            tracker.wf(),
            tracker@ == TrackerState::initial(default_path@),
            tracker@.consistent(),
    {
        let tracker = AllocationTracker {
            current_allocations: new_hashmap(),
            current_anon_mmaps: RangeMap::new(),
            interner: CallstackInterner::new(),
            functions: FunctionLocations::new(),
            current_memory_usage: vector_new(),
            peak_memory_usage: vector_new(),
            current_allocated_bytes: 0,
            peak_allocated_bytes: 0,
            default_path,
        };
        proof {
            lemma_initial(default_path@);
            assert(tracker@ =~= TrackerState::initial(default_path@));
        }
        tracker
    }

    pub fn get_current_allocated_bytes(&self) -> (bytes: usize)
        ensures
            bytes == self@.current_bytes,
    {
        self.current_allocated_bytes
    }

    /// The size that is remembered of the allocation at an address, or 0 if none is known there.
    pub fn get_allocation_size(&self, address: usize) -> (size: usize)
        requires
            self.wf(),
        ensures
            size == size_at(self@.allocations, address),
    {
        broadcast use vstd::std_specs::hash::group_hash_axioms;

        if let Some(allocation) = map_get(&self.current_allocations, address) {
            allocation.size()
        } else {
            0
        }
    }

    /// Registers a function with [`AllocationTracker::functions`].
    pub fn add_function(&mut self, filename: String, function_name: String) -> (id: FunctionId)
        requires
            old(self).wf(),
        ensures
            final(self).wf(),
            final(self)@ == old(self)@.see_function(
                FunctionName { filename: filename@, function_name: function_name@ },
            ),
            old(self)@.consistent() ==> final(self)@.consistent(),
            id.0 as nat == old(self)@.functions.len() % 0x1_0000_0000,
    {
        proof {
            lemma_see_function(
                self@,
                FunctionName { filename: filename@, function_name: function_name@ },
            );
        }
        self.functions.add_function(filename, function_name)
    }

    /// Check if a new peak has been reached:
    pub fn check_if_new_peak(&mut self)
        requires
            old(self).wf(),
        ensures
            final(self).wf(),
            final(self)@ == old(self)@.check_if_new_peak(),
            old(self)@.consistent() ==> final(self)@.consistent(),
    {
        proof {
            lemma_check_if_new_peak(self@);
        }
        if self.current_allocated_bytes > self.peak_allocated_bytes {
            self.peak_allocated_bytes = self.current_allocated_bytes;
            vector_clone_from(&mut self.peak_memory_usage, &self.current_memory_usage);
        }
    }

    fn add_memory_usage(&mut self, callstack_id: CallstackId, bytes: usize)
        requires
            callstack_id < old(self)@.usage.len(),
            old(self)@.usage[callstack_id as int] + bytes <= usize::MAX,
            old(self)@.current_bytes + bytes <= usize::MAX,
        ensures
            final(self).interner == old(self).interner,
            final(self)@ == (TrackerState {
                usage: with_more(old(self)@.usage, callstack_id, bytes as nat),
                current_bytes: old(self)@.current_bytes + bytes as nat,
                ..old(self)@
            }),
    {
        self.current_allocated_bytes = self.current_allocated_bytes + bytes;
        let index: usize = callstack_id as usize;
        let held: usize = vector_index(&self.current_memory_usage, index);
        vector_index_mut(&mut self.current_memory_usage, index, held + bytes);
    }

    fn remove_memory_usage(&mut self, callstack_id: CallstackId, bytes: usize)
        requires
            callstack_id < old(self)@.usage.len(),
            bytes <= old(self)@.usage[callstack_id as int],
            bytes <= old(self)@.current_bytes,
        ensures
            final(self).interner == old(self).interner,
            final(self)@ == (TrackerState {
                usage: with_less(old(self)@.usage, callstack_id, bytes as nat),
                current_bytes: (old(self)@.current_bytes - bytes) as nat,
                ..old(self)@
            }),
    {
        self.current_allocated_bytes = self.current_allocated_bytes - bytes;
        let index: usize = callstack_id as usize;
        let held: usize = vector_index(&self.current_memory_usage, index);
        vector_index_mut(&mut self.current_memory_usage, index, held - bytes);
    }

    /// The id of a callstack, which is a new one if the callstack has not been seen before.
    pub fn get_callstack_id(&mut self, callstack: &Callstack) -> (id: CallstackId)
        requires
            old(self).wf(),
            old(self)@.callstacks.contains(callstack@.calls) || old(self)@.callstacks.len()
                < u32::MAX,
        ensures
            final(self).wf(),
            final(self)@ == old(self)@.see_callstack(callstack@.calls),
            old(self)@.consistent() ==> final(self)@.consistent(),
            id < final(self)@.callstacks.len(),
            final(self)@.callstacks[id as int] == callstack@.calls,
    {
        proof {
            lemma_see_callstack(self@, callstack@.calls);
        }
        let (id, is_new) = self.interner.intern(callstack);
        if is_new {
            vector_push_back(&mut self.current_memory_usage, 0);
        }
        id
    }

    /// Whether a callstack has been seen before.
    pub fn knows_callstack(&self, callstack: &Callstack) -> (known: bool)
        requires
            self.wf(),
        ensures
            known == self@.callstacks.contains(callstack@.calls),
    {
        self.interner.contains(callstack)
    }

    /// Add a new allocation based off the current callstack.
    ///
    /// If an allocation was known at that address already, its end was missed, which can happen if
    /// e.g. a library frees memory with private OS APIs. It is cleaned up, and its size is handed
    /// back.
    pub fn add_allocation(&mut self, address: usize, size: usize, callstack_id: CallstackId) -> (
    disappeared: Option<usize>)
        requires
            old(self).wf(),
            callstack_id < old(self)@.callstacks.len(),
            size + MIB / 2 <= usize::MAX,
            old(self)@.current_bytes - size_at(old(self)@.allocations, address) + remembered_size(
                size as nat,
            ) <= usize::MAX,
        ensures
            final(self).wf(),
            final(self)@ == old(self)@.add_allocation(
                address,
                allocation_of(callstack_id, size as nat),
            ),
            old(self)@.consistent() ==> final(self)@.consistent(),
            match disappeared {
                Some(previous) => old(self)@.allocations.contains_key(address) && previous
                    == old(self)@.allocations[address].bytes(),
                None => !old(self)@.allocations.contains_key(address),
            },
    {
        broadcast use vstd::std_specs::hash::group_hash_axioms;

        let alloc: Allocation = Allocation::new(callstack_id, size);
        let compressed_size: usize = alloc.size();
        let ghost before = self@;
        let ghost cleared = before.forget_allocation(address);
        proof {
            lemma_forget_allocation(before, address);
            lemma_add_allocation(before, address, alloc);
            lemma_total_update(cleared.usage, callstack_id as int, 0);
        }
        let mut disappeared: Option<usize> = None;
        if let Some(previous) = map_insert(&mut self.current_allocations, address, alloc) {
            // Clean up the previous allocation, since we never saw its free():
            let previous_size: usize = previous.size();
            self.remove_memory_usage(previous.callstack_id, previous_size);
            disappeared = Some(previous_size);
        }
        self.add_memory_usage(callstack_id, compressed_size);
        proof {
            assert(self@ =~= before.add_allocation(address, alloc));
        }
        disappeared
    }

    /// Free an existing allocation.
    pub fn free_allocation(&mut self, address: usize)
        requires
            old(self).wf(),
        ensures
            final(self).wf(),
            final(self)@ == old(self)@.free_allocation(address),
            old(self)@.consistent() ==> final(self)@.consistent(),
    {
        broadcast use vstd::std_specs::hash::group_hash_axioms;

        // Before we reduce memory, let's check if we've previously hit a peak:
        self.check_if_new_peak();
        let ghost checked = self@;
        proof {
            lemma_forget_allocation(checked, address);
        }
        // Possibly this allocation doesn't exist; that's OK! It can if e.g. we
        // didn't capture an allocation for some reason.
        if let Some(gone) = map_remove(&mut self.current_allocations, address) {
            let size: usize = gone.size();
            self.remove_memory_usage(gone.callstack_id, size);
        }
        proof {
            assert(self@ =~= checked.forget_allocation(address));
        }
    }

    /// Add a new anonymous mmap() based of the current callstack.
    pub fn add_anon_mmap(&mut self, address: usize, size: usize, callstack_id: CallstackId)
        requires
            old(self).wf(),
            callstack_id < old(self)@.callstacks.len(),
            address + size <= usize::MAX,
            old(self)@.current_bytes + size <= usize::MAX,
        ensures
            final(self).wf(),
            final(self)@ == old(self)@.add_anon_mmap(address, size, callstack_id),
            old(self)@.consistent() ==> final(self)@.consistent(),
    {
        proof {
            lemma_add_anon_mmap(self@, address, size, callstack_id);
            lemma_total_update(self@.usage, callstack_id as int, 0);
        }
        let ghost before = self@;
        self.current_anon_mmaps.add(address, size, callstack_id);
        self.add_memory_usage(callstack_id, size);
        proof {
            assert(self@ =~= before.add_anon_mmap(address, size, callstack_id));
        }
    }

    /// Remove anonymous mmap()s, or parts of them, that lie in a range of addresses.
    pub fn free_anon_mmap(&mut self, address: usize, size: usize)
        requires
            old(self).wf(),
        ensures
            final(self).wf(),
            final(self)@ == old(self)@.free_anon_mmap(address, size),
            old(self)@.consistent() ==> final(self)@.consistent(),
    {
        let ghost before = self@;
        proof {
            lemma_free_anon_mmap(before, address, size);
        }
        // Before we reduce memory, let's check if we've previously hit a peak:
        self.check_if_new_peak();
        proof {
            lemma_lost_is_held(self@, address, size);
        }
        let ghost checked = self@;
        let ghost interner = self.interner;
        let ghost after = before.free_anon_mmap(address, size);
        // Now remove, and update total memory tracking:
        let lost: Vec<(CallstackId, usize)> = self.current_anon_mmaps.remove(address, size);
        proof {
            assert(without_lost(checked.usage, lost@.take(0)) =~= checked.usage);
        }
        let mut i: usize = 0;
        while i < lost.len()
            invariant
                i <= lost.len(),
                checked.wf(),
                self.interner == interner,
                forall|k: int| 0 <= k < lost.len() ==> (#[trigger] lost@[k]).0 < checked.usage.len(),
                forall|id: CallstackId|
                    id < checked.usage.len() ==> #[trigger] lost_with(lost@, id)
                        <= checked.usage[id as int],
                self@ == (TrackerState {
                    mmaps: after.mmaps,
                    usage: without_lost(checked.usage, lost@.take(i as int)),
                    current_bytes: (checked.current_bytes - lost_size(
                        lost@.take(i as int),
                    )) as nat,
                    ..checked
                }),
            decreases lost.len() - i,
        {
            let (callstack_id, bytes) = lost[i];
            proof {
                lemma_without_first_lost(checked.usage, lost@, i as int);
            }
            self.remove_memory_usage(callstack_id, bytes);
            i = i + 1;
        }
        proof {
            assert(lost@.take(i as int) =~= lost@);
            assert(self@ =~= after);
        }
    }

    /// Combine Callstacks: the ids of those worth reporting, with the memory that each holds.
    pub fn combine_callstacks(
        &mut self,
        // If false, will do the current allocations:
        peak: bool,
    ) -> (useful: HashMap<CallstackId, usize, RandomState>)
        requires
            old(self).wf(),
        ensures
            final(self).wf(),
            final(self)@ == old(self)@.check_if_new_peak(),
            old(self)@.consistent() ==> final(self)@.consistent(),
            useful@ == final(self)@.reported(peak),
    {
        // First, make sure peaks are correct:
        self.check_if_new_peak();
        // We get a LOT of tiny allocations. To reduce overhead of creating
        // flamegraph (which currently loads EVERYTHING into memory), just do
        // the top 99% of allocations.
        if peak {
            filter_to_useful_callstacks(&self.peak_memory_usage)
        } else {
            filter_to_useful_callstacks(&self.current_memory_usage)
        }
    }

    /// The lines for callstacks, with the bytes that each holds.
    pub fn lines_for(
        &self,
        entries: &Vec<(CallstackId, usize)>,
        to_be_post_processed: bool,
    ) -> (lines: Vec<String>)
        requires
            self.wf(),
            lines_known(entries@, self@.callstacks, self@.functions),
        ensures
            texts(lines@) == lines_text(
                entries@,
                self@.callstacks,
                self@.functions,
                to_be_post_processed,
            ),
    {
        broadcast use vstd::std_specs::hash::group_hash_axioms;

        let id_to_callstack: HashMap<CallstackId, Callstack, RandomState> =
            self.interner.get_reverse_map();
        let mut lines: Vec<String> = Vec::new();
        let mut i: usize = 0;
        while i < entries.len()
            invariant
                i <= entries.len(),
                lines.len() == i,
                lines_known(entries@, self@.callstacks, self@.functions),
                forall|id: CallstackId| #[trigger]
                    id_to_callstack@.contains_key(id) <==> id < self@.callstacks.len(),
                forall|id: CallstackId|
                    id < self@.callstacks.len() ==> (#[trigger] id_to_callstack@[id])@.calls
                        == self@.callstacks[id as int],
                forall|k: int|
                    0 <= k < i ==> (#[trigger] lines@[k])@ == line_text(
                        self@.callstacks[entries@[k].0 as int],
                        entries@[k].1,
                        self@.functions,
                        to_be_post_processed,
                    ),
            decreases entries.len() - i,
        {
            broadcast use vstd::std_specs::hash::group_hash_axioms;

            let (callstack_id, size) = entries[i];
            proof {
                assert(id_to_callstack@.contains_key(callstack_id));
            }
            if let Some(callstack) = map_get(&id_to_callstack, callstack_id) {
                let mut line: String = callstack.as_string(to_be_post_processed, &self.functions);
                line.append(" ");
                append_decimal(&mut line, size);
                lines.push(line);
            }
            i = i + 1;
        }
        proof {
            assert(texts(lines@) =~= lines_text(
                entries@,
                self@.callstacks,
                self@.functions,
                to_be_post_processed,
            ));
        }
        lines
    }

    /// Whether all functions are registered that the callstacks worth reporting call.
    pub fn functions_known(&mut self, peak: bool) -> (known: bool)
        requires
            old(self).wf(),
        ensures
            final(self).wf(),
            final(self)@ == old(self)@.check_if_new_peak(),
            old(self)@.consistent() ==> final(self)@.consistent(),
            known == final(self)@.can_report(peak),
    {
        broadcast use vstd::std_specs::hash::group_hash_axioms;

        let by_call: HashMap<CallstackId, usize, RandomState> = self.combine_callstacks(peak);
        let entries: Vec<(CallstackId, usize)> = map_iter(&by_call);
        let id_to_callstack: HashMap<CallstackId, Callstack, RandomState> =
            self.interner.get_reverse_map();
        let ghost state = self@;
        let mut known: bool = true;
        let mut i: usize = 0;
        while i < entries.len()
            invariant
                i <= entries.len(),
                state == self@,
                state.wf(),
                lists_entries(entries@, state.reported(peak)),
                forall|id: CallstackId| #[trigger]
                    id_to_callstack@.contains_key(id) <==> id < state.callstacks.len(),
                forall|id: CallstackId|
                    id < state.callstacks.len() ==> (#[trigger] id_to_callstack@[id])@.calls
                        == state.callstacks[id as int],
                known ==> forall|k: int|
                    0 <= k < i ==> calls_known(
                        state.callstacks[(#[trigger] entries@[k]).0 as int],
                        state.functions.len(),
                    ),
                !known ==> !state.can_report(peak),
            decreases entries.len() - i,
        {
            broadcast use vstd::std_specs::hash::group_hash_axioms;

            let callstack_id: CallstackId = entries[i].0;
            proof {
                assert(state.reported(peak).contains_key(entries@[i as int].0));
                assert(id_to_callstack@.contains_key(callstack_id));
            }
            if let Some(callstack) = map_get(&id_to_callstack, callstack_id) {
                if !callstack.functions_known(&self.functions) {
                    known = false;
                }
            }
            i = i + 1;
        }
        proof {
            if known {
                assert forall|id: CallstackId| #[trigger]
                    state.reported(peak).contains_key(id) implies calls_known(
                    state.callstacks[id as int],
                    state.functions.len(),
                ) by {
                    let k = choose|k: int| 0 <= k < entries.len() && #[trigger] entries@[k].0 == id;
                    assert(entries@[k].0 == id);
                }
            }
        }
        known
    }

    /// A line for each callstack worth reporting, in no particular order.
    pub fn to_lines(&mut self, peak: bool, to_be_post_processed: bool) -> (lines: Vec<String>)
        requires
            old(self).wf(),
            old(self)@.check_if_new_peak().can_report(peak),
        ensures
            final(self).wf(),
            final(self)@ == old(self)@.check_if_new_peak(),
            old(self)@.consistent() ==> final(self)@.consistent(),
            final(self)@.is_report(texts(lines@), peak, to_be_post_processed),
    {
        broadcast use vstd::std_specs::hash::group_hash_axioms;

        let by_call: HashMap<CallstackId, usize, RandomState> = self.combine_callstacks(peak);
        let entries: Vec<(CallstackId, usize)> = map_iter(&by_call);
        proof {
            assert forall|i: int| 0 <= i < entries.len() implies (#[trigger] entries@[i]).0
                < self@.callstacks.len() && calls_known(
                self@.callstacks[entries@[i].0 as int],
                self@.functions.len(),
            ) by {
                assert(self@.reported(peak).contains_key(entries@[i].0));
            }
        }
        self.lines_for(&entries, to_be_post_processed)
    }

    /// What goes to files when the memory usage is dumped.
    pub fn dump_to_flamegraph(
        &mut self,
        path: &str,
        peak: bool,
        base_filename: &str,
        title: &str,
        to_be_post_processed: bool,
    ) -> (dump: FlamegraphDump)
        requires
            old(self).wf(),
            old(self)@.check_if_new_peak().can_report(peak),
        ensures
            final(self).wf(),
            final(self)@ == old(self)@.check_if_new_peak(),
            old(self)@.consistent() ==> final(self)@.consistent(),
            is_dump(
                dump,
                final(self)@,
                path@,
                peak,
                base_filename@,
                title@,
                to_be_post_processed,
            ),
    {
        let lines: Vec<String> = self.to_lines(peak, to_be_post_processed);
        FlamegraphDump {
            directory: path.to_owned(),
            raw_filename: with_suffix(base_filename, ".prof"),
            svg_filename: with_suffix(base_filename, ".svg"),
            reversed_svg_filename: with_suffix(base_filename, "-reversed.svg"),
            lines,
            peak_bytes: self.peak_allocated_bytes,
            title: title.to_owned(),
            to_be_post_processed,
        }
    }

    /// Dump all callstacks in peak memory usage: what goes to the various files describing the
    /// memory usage.
    pub fn dump_peak_to_flamegraph(&mut self, path: &str) -> (dump: FlamegraphDump)
        requires
            old(self).wf(),
            old(self)@.check_if_new_peak().can_report(true),
        ensures
            final(self).wf(),
            final(self)@ == old(self)@.check_if_new_peak(),
            old(self)@.consistent() ==> final(self)@.consistent(),
            is_dump(
                dump,
                final(self)@,
                path@,
                true,
                "peak-memory"@,
                "Peak Tracked Memory Usage"@,
                true,
            ),
    {
        self.dump_to_flamegraph(path, true, "peak-memory", "Peak Tracked Memory Usage", true)
    }

    /// Clear memory we won't be needing anymore, since we're going to exit out.
    pub fn oom_break_glass(&mut self)
        requires
            old(self).wf(),
        ensures
            final(self).wf(),
            final(self)@ == old(self)@.oom_break_glass(),
    {
        broadcast use vstd::std_specs::hash::group_hash_axioms;

        proof {
            lemma_oom_break_glass(self@);
        }
        self.current_allocations.clear();
        map_shrink_to_fit(&mut self.current_allocations);
        vector_clear(&mut self.peak_memory_usage);
        proof {
            assert(self@ =~= old(self)@.oom_break_glass());
        }
    }

    /// Dump information about where we are, to the default path. The process is to exit with
    /// [`OOM_EXIT_STATUS`] afterwards.
    pub fn oom_dump(&mut self) -> (dump: FlamegraphDump)
        requires
            old(self).wf(),
            old(self)@.check_if_new_peak().can_report(false),
        ensures
            final(self).wf(),
            final(self)@ == old(self)@.check_if_new_peak(),
            old(self)@.consistent() ==> final(self)@.consistent(),
            is_dump(
                dump,
                final(self)@,
                old(self)@.default_path,
                false,
                "out-of-memory"@,
                "Current allocations at out-of-memory time"@,
                false,
            ),
    {
        let default_path: String = self.default_path.clone();
        self.dump_to_flamegraph(
            default_path.as_str(),
            false,
            "out-of-memory",
            "Current allocations at out-of-memory time",
            false,
        )
    }

    /// Whether internal state is in a good state. It won't be until check_if_new_peak() is called.
    pub fn validate(&self) -> (valid: bool)
        requires
            self.wf(),
        ensures
            valid == self@.valid(),
    {
        broadcast use vstd::std_specs::hash::group_hash_axioms;

        proof {
            lemma_held(self@);
        }
        let entries: Vec<(usize, Allocation)> = map_iter(&self.current_allocations);
        let ghost allocations = self@.allocations;
        proof {
            lemma_entries_bytes(entries@, allocations);
            assert forall|k: int| 0 <= k < entries.len() implies (#[trigger] entries@[k]).1.wf() by {
                assert(allocations.contains_key(entries@[k].0));
            }
            assert(entries@.take(0) =~= Seq::<(usize, Allocation)>::empty());
        }
        let mut allocated: usize = 0;
        let mut i: usize = 0;
        while i < entries.len()
            invariant
                i <= entries.len(),
                allocated == entries_bytes(entries@.take(i as int)),
                entries_bytes(entries@) <= usize::MAX,
                forall|k: int| 0 <= k < entries.len() ==> (#[trigger] entries@[k]).1.wf(),
            decreases entries.len() - i,
        {
            proof {
                assert(entries@.take(i + 1).drop_last() =~= entries@.take(i as int));
                lemma_entries_bytes_take(entries@, i + 1);
                assert(entries@[i as int].1.wf());
            }
            let allocation: Allocation = entries[i].1;
            allocated = allocated + allocation.size();
            i = i + 1;
        }
        proof {
            assert(entries@.take(i as int) =~= entries@);
        }
        self.peak_allocated_bytes >= self.current_allocated_bytes && self.current_anon_mmaps.size()
            + allocated == self.current_allocated_bytes && total_bytes(&self.current_memory_usage)
            == self.current_allocated_bytes && total_bytes(&self.peak_memory_usage)
            == self.peak_allocated_bytes
    }

    /// Reset internal state in way that doesn't invalidate e.g. thread-local
    /// caching of callstack ID.
    pub fn reset(&mut self, default_path: String)
        requires
            old(self).wf(),
        ensures
            final(self).wf(),
            final(self)@ == old(self)@.reset(default_path@),
            final(self)@.consistent(),
            final(self)@.valid(),
    {
        broadcast use vstd::std_specs::hash::group_hash_axioms;

        let ghost before = self@;
        proof {
            lemma_reset(before, default_path@);
        }
        self.current_allocations.clear();
        self.current_anon_mmaps = RangeMap::new();
        let count: usize = vector_len(&self.current_memory_usage);
        let ghost cleared = *self;
        let mut i: usize = 0;
        while i < count
            invariant
                i <= count,
                self.interner == cleared.interner,
                self@ == (TrackerState { usage: self@.usage, ..cleared@ }),
                self@.usage.len() == count,
                forall|k: int| 0 <= k < i ==> self@.usage[k] == 0,
            decreases count - i,
        {
            vector_index_mut(&mut self.current_memory_usage, i, 0);
            i = i + 1;
        }
        self.peak_memory_usage = vector_new();
        self.current_allocated_bytes = 0;
        self.peak_allocated_bytes = 0;
        self.default_path = default_path;
        proof {
            assert(self@ =~= before.reset(default_path@));
        }
    }

    /// Where to write to if nothing else is said.
    pub fn default_path(&self) -> (path: &str)
        ensures
            path@ == self@.default_path,
    {
        self.default_path.as_str()
    }

    /// The known allocations by address.
    pub fn current_allocations(&self) -> (allocations: &HashMap<usize, Allocation, RandomState>)
        ensures
            allocations@ == self@.allocations,
    {
        &self.current_allocations
    }

    /// The known anonymous mappings.
    pub fn current_anon_mmaps(&self) -> (mmaps: &RangeMap<CallstackId>)
        ensures
            mmaps@ == self@.mmaps,
    {
        &self.current_anon_mmaps
    }

    /// The bytes that each callstack holds now.
    pub fn current_memory_usage(&self) -> (usage: &ImVector<usize>)
        ensures
            slots(*usage) == self@.usage,
    {
        &self.current_memory_usage
    }

    /// The bytes that each callstack held at the last peak that was noticed.
    pub fn peak_memory_usage(&self) -> (usage: &ImVector<usize>)
        ensures
            slots(*usage) == self@.peak_usage,
    {
        &self.peak_memory_usage
    }

    /// The bytes that were held at the last peak that was noticed.
    pub fn get_peak_allocated_bytes(&self) -> (bytes: usize)
        ensures
            bytes == self@.peak_bytes,
    {
        self.peak_allocated_bytes
    }
}

/// The remembered sizes of listed allocations together.
spec fn entries_bytes(entries: Seq<(usize, Allocation)>) -> nat
    decreases entries.len(),
{
    if entries.len() == 0 {
        0
    } else {
        entries_bytes(entries.drop_last()) + entries.last().1.bytes()
    }
}

proof fn lemma_entries_bytes_take(entries: Seq<(usize, Allocation)>, n: int)
    requires
        0 <= n <= entries.len(),
    ensures
        entries_bytes(entries.take(n)) <= entries_bytes(entries),
    decreases entries.len() - n,
{
    if n == entries.len() {
        assert(entries.take(n) =~= entries);
    } else {
        lemma_entries_bytes_take(entries, n + 1);
        assert(entries.take(n + 1).drop_last() =~= entries.take(n));
    }
}

/// Allocations can be summed in whatever order they are listed.
proof fn lemma_entries_bytes(entries: Seq<(usize, Allocation)>, allocations: Map<usize, Allocation>)
    requires
        allocations.dom().finite(),
        lists_entries(entries, allocations),
    ensures
        entries_bytes(entries) == allocated_bytes(allocations),
    decreases entries.len(),
{
    if entries.len() == 0 {
        if allocations.dom().len() > 0 {
            assert(allocations.contains_key(allocations.dom().choose()));
        }
    } else {
        let rest = entries.drop_last();
        let last = entries.last();
        let others = allocations.remove(last.0);
        assert(last == entries[entries.len() - 1]);
        assert forall|i: int| 0 <= i < rest.len() implies others.contains_key(#[trigger] rest[i].0)
            && others[rest[i].0] == rest[i].1 by {
            assert(rest[i] == entries[i]);
            assert(entries[i].0 != entries[entries.len() - 1].0);
        }
        assert forall|i: int, j: int| 0 <= i < j < rest.len() implies #[trigger] rest[i].0
            != #[trigger] rest[j].0 by {
            assert(entries[i].0 != entries[j].0);
        }
        assert forall|key: usize| #[trigger] others.contains_key(key) implies exists|i: int|
            0 <= i < rest.len() && #[trigger] rest[i].0 == key by {
            assert(allocations.contains_key(key));
            let i = choose|i: int| 0 <= i < entries.len() && #[trigger] entries[i].0 == key;
            assert(rest[i].0 == key);
        }
        lemma_entries_bytes(rest, others);
        lemma_weigh_remove(allocations, any_bytes(), last.0);
    }
}

} // verus!
