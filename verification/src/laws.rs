//! What can be relied on across events.

use crate::allocation::{
    allocation_of, law_allocations_are_remembered, remembered_size, Allocation,
};
use crate::callstack::{
    law_different_lines_make_different_callstacks, CallSiteId, CallstackId, CallstackView,
};
use crate::filter::{
    bytes_listed, law_callstacks_are_reported_with_their_bytes, law_reported_bytes_are_99_percent,
    law_useful_callstacks_hold_99_percent, useful_bytes, useful_callstacks,
};
use crate::functions::FunctionName;
use crate::interner::id_of;
use crate::rangemap::{
    addresses_mapped, law_added_ranges_map_their_addresses, law_losses_are_the_addresses_removed,
    law_removal_elsewhere_changes_nothing, law_removal_undoes_add,
    law_removal_unmaps_just_that_range, law_sizes_of_ranges_add_up, lemma_removal_adds_up,
    lost_size, lost_with, overlap, removed, size_with, times_mapped, MappedRange,
};
use crate::state::{
    allocated_by, bytes_of, lemma_add_allocation, lemma_add_anon_mmap, lemma_check_if_new_peak,
    lemma_forget_allocation, lemma_free_anon_mmap, lemma_held, lemma_lost_is_held,
    lemma_see_callstack, lemma_see_function, lemma_weigh_insert, lemma_weigh_remove, size_at,
    TrackerState,
};
use crate::usage::{
    lemma_sum_below_add, lemma_total_is_sum_below, lemma_total_update, sum_below,
};
use vstd::prelude::*;

verus! {

/// Something that happens to the memory of the profiled program, or to its tracker.
pub enum Event {
    /// A peak is looked for.
    PeakChecked,
    /// A function is registered.
    FunctionSeen { name: FunctionName },
    /// A callstack is seen.
    CallstackSeen { calls: Seq<CallSiteId> },
    /// Memory is allocated.
    Allocated { address: usize, allocation: Allocation },
    /// Memory is freed.
    Freed { address: usize },
    /// Memory is mapped.
    Mapped { address: usize, size: usize, id: CallstackId },
    /// Memory is unmapped.
    Unmapped { address: usize, size: usize },
}

impl TrackerState {
    /// What an event does.
    pub open spec fn step(self, event: Event) -> TrackerState {
        match event {
            Event::PeakChecked => self.check_if_new_peak(),
            Event::FunctionSeen { name } => self.see_function(name),
            Event::CallstackSeen { calls } => self.see_callstack(calls),
            Event::Allocated { address, allocation } => self.add_allocation(address, allocation),
            Event::Freed { address } => self.free_allocation(address),
            Event::Mapped { address, size, id } => self.add_anon_mmap(address, size, id),
            Event::Unmapped { address, size } => self.free_anon_mmap(address, size),
        }
    }

    /// Whether an event can be tracked: what it names is known, and the numbers stay within bounds.
    pub open spec fn can_track(self, event: Event) -> bool {
        match event {
            Event::PeakChecked => true,
            Event::FunctionSeen { name } => true,
            Event::CallstackSeen { calls } => self.callstacks.contains(calls)
                || self.callstacks.len() < u32::MAX,
            Event::Allocated { address, allocation } => allocation.wf() && allocation.callstack_id
                < self.callstacks.len() && self.step(event).current_bytes <= usize::MAX,
            Event::Freed { address } => true,
            Event::Mapped { address, size, id } => id < self.callstacks.len() && address + size
                <= usize::MAX && self.current_bytes + size <= usize::MAX,
            Event::Unmapped { address, size } => true,
        }
    }

    /// What events do, one after the other.
    pub open spec fn after(self, events: Seq<Event>) -> TrackerState
        decreases events.len(),
    {
        if events.len() == 0 {
            self
        } else {
            self.after(events.drop_last()).step(events.last())
        }
    }

    /// Whether events can be tracked, one after the other.
    pub open spec fn can_track_all(self, events: Seq<Event>) -> bool
        decreases events.len(),
    {
        events.len() > 0 ==> self.can_track_all(events.drop_last()) && self.after(
            events.drop_last(),
        ).can_track(events.last())
    }

    /// The most bytes that are held at any time while events happen.
    pub open spec fn most_held(self, events: Seq<Event>) -> nat
        decreases events.len(),
    {
        if events.len() == 0 {
            self.current_bytes
        } else {
            larger(self.most_held(events.drop_last()), self.after(events).current_bytes)
        }
    }

    /// Whether an event makes room before the peak has been looked at. Only an allocation at the
    /// address of an allocation whose end was missed does.
    pub open spec fn overlooks_peak(self, event: Event) -> bool {
        match event {
            Event::Allocated { address, allocation } => self.current_bytes > self.peak_bytes
                && allocation.bytes() < size_at(self.allocations, address),
            _ => false,
        }
    }

    /// Whether no event overlooks a peak.
    pub open spec fn sees_every_peak(self, events: Seq<Event>) -> bool
        decreases events.len(),
    {
        events.len() > 0 ==> self.sees_every_peak(events.drop_last()) && !self.after(
            events.drop_last(),
        ).overlooks_peak(events.last())
    }
}

pub open spec fn larger(a: nat, b: nat) -> nat {
    if a >= b {
        a
    } else {
        b
    }
}

/// No event makes a well formed tracker ill formed, or a consistent one inconsistent.
pub proof fn law_events_keep_the_books(state: TrackerState, event: Event)
    requires
        state.wf(),
        state.can_track(event),
    ensures
        state.step(event).wf(),
        state.consistent() ==> state.step(event).consistent(),
{
    match event {
        Event::PeakChecked => lemma_check_if_new_peak(state),
        Event::FunctionSeen { name } => lemma_see_function(state, name),
        Event::CallstackSeen { calls } => lemma_see_callstack(state, calls),
        Event::Allocated { address, allocation } => lemma_add_allocation(
            state,
            address,
            allocation,
        ),
        Event::Freed { address } => {
            lemma_check_if_new_peak(state);
            lemma_forget_allocation(state.check_if_new_peak(), address);
        },
        Event::Mapped { address, size, id } => lemma_add_anon_mmap(state, address, size, id),
        Event::Unmapped { address, size } => lemma_free_anon_mmap(state, address, size),
    }
}

/// However many events there are, a tracker that was well formed or consistent stays so.
pub proof fn law_any_events_keep_the_books(state: TrackerState, events: Seq<Event>)
    requires
        state.wf(),
        state.can_track_all(events),
    ensures
        state.after(events).wf(),
        state.consistent() ==> state.after(events).consistent(),
    decreases events.len(),
{
    if events.len() > 0 {
        law_any_events_keep_the_books(state, events.drop_last());
        law_events_keep_the_books(state.after(events.drop_last()), events.last());
    }
}

/// The bytes that are counted are those of the known allocations and mappings together, for all
/// callstacks and for each one: allocations and mappings of the same callstack are summed.
pub proof fn law_current_bytes_are_what_is_held(state: TrackerState, id: CallstackId)
    requires
        state.consistent(),
    ensures
        state.current_bytes == state.held(),
        id < state.usage.len() ==> state.usage[id as int] == allocated_by(state.allocations, id)
            + size_with(state.mmaps, id),
{
    lemma_held(state);
    if id < state.usage.len() {
        assert(state.held_by(id) == state.usage[id as int]);
    }
}

/// Once everything is freed, every byte count is exactly 0.
pub proof fn law_nothing_held_counts_as_zero(state: TrackerState)
    requires
        state.consistent(),
        state.allocations == Map::<usize, Allocation>::empty(),
        state.mmaps == Seq::<MappedRange<CallstackId>>::empty(),
    ensures
        state.current_bytes == 0,
        forall|i: int| 0 <= i < state.usage.len() ==> state.usage[i] == 0,
{
    lemma_held(state);
    assert forall|i: int| 0 <= i < state.usage.len() implies state.usage[i] == 0 by {
        assert(state.held_by(i as CallstackId) == state.usage[i]);
        assert(state.allocations.dom().len() == 0);
    }
}

/// A consistent tracker is valid as soon as a peak has been looked for.
pub proof fn law_consistent_trackers_are_valid(state: TrackerState)
    requires
        state.consistent(),
    ensures
        state.check_if_new_peak().valid(),
{
    lemma_check_if_new_peak(state);
    lemma_held(state.check_if_new_peak());
}

/// Peaks are noticed only when they are new, and looking twice is the same as looking once.
pub proof fn law_peaks_only_go_up(state: TrackerState)
    ensures
        state.check_if_new_peak().peak_bytes == larger(state.peak_bytes, state.current_bytes),
        state.current_bytes <= state.peak_bytes ==> state.check_if_new_peak() == state,
        state.check_if_new_peak().check_if_new_peak() == state.check_if_new_peak(),
{
}

/// Freeing or unmapping loses nothing of the peak: looking for it afterwards gives what looking
/// for it before would have given.
pub proof fn law_freeing_keeps_the_peak(state: TrackerState, address: usize, size: usize)
    requires
        state.wf(),
    ensures
        state.free_allocation(address).check_if_new_peak().peak_bytes
            == state.check_if_new_peak().peak_bytes,
        state.free_allocation(address).check_if_new_peak().peak_usage
            == state.check_if_new_peak().peak_usage,
        state.free_anon_mmap(address, size).check_if_new_peak().peak_bytes
            == state.check_if_new_peak().peak_bytes,
        state.free_anon_mmap(address, size).check_if_new_peak().peak_usage
            == state.check_if_new_peak().peak_usage,
{
    lemma_check_if_new_peak(state);
    lemma_forget_allocation(state.check_if_new_peak(), address);
    lemma_lost_is_held(state, address, size);
}

/// The peak is the most that was ever held. The exception: an allocation at the address of a
/// larger one whose end was missed, made before the peak was looked at, can hide a peak. Even then
/// nothing counts as a peak that was not held.
pub proof fn law_the_peak_is_the_most_ever_held(state: TrackerState, events: Seq<Event>)
    requires
        state.wf(),
        state.can_track_all(events),
    ensures
        state.after(events).check_if_new_peak().peak_bytes <= larger(
            state.peak_bytes,
            state.most_held(events),
        ),
        state.sees_every_peak(events) ==> state.after(events).check_if_new_peak().peak_bytes
            == larger(state.peak_bytes, state.most_held(events)),
    decreases events.len(),
{
    if events.len() > 0 {
        let before = state.after(events.drop_last());
        law_any_events_keep_the_books(state, events.drop_last());
        law_the_peak_is_the_most_ever_held(state, events.drop_last());
        match events.last() {
            Event::Allocated { address, allocation } => {
                lemma_forget_allocation(before, address);
            },
            Event::Freed { address } => {
                law_freeing_keeps_the_peak(before, address, 0);
                lemma_check_if_new_peak(before);
                lemma_forget_allocation(before.check_if_new_peak(), address);
            },
            Event::Unmapped { address, size } => {
                law_freeing_keeps_the_peak(before, address, size);
            },
            _ => {},
        }
    }
}

/// What is reported of a peak holds at least 99% of its bytes.
pub proof fn law_peak_reports_hold_99_percent(state: TrackerState)
    requires
        state.consistent(),
    ensures
        100 * useful_bytes(state.check_if_new_peak().peak_usage) >= 99
            * state.check_if_new_peak().peak_bytes,
{
    lemma_check_if_new_peak(state);
    law_useful_callstacks_hold_99_percent(state.check_if_new_peak().peak_usage);
}

/// An allocation is known by its address until it is freed, whatever else is allocated or freed.
pub proof fn law_allocations_are_found_by_address(
    state: TrackerState,
    address: usize,
    allocation: Allocation,
    other: usize,
)
    requires
        other != address,
    ensures
        size_at(state.add_allocation(address, allocation).allocations, address)
            == allocation.bytes(),
        size_at(state.add_allocation(address, allocation).allocations, other) == size_at(
            state.allocations,
            other,
        ),
        size_at(state.free_allocation(address).allocations, address) == 0,
        size_at(state.free_allocation(address).allocations, other) == size_at(
            state.allocations,
            other,
        ),
{
}

/// Freeing an allocation right after it was made leaves what there was, without the allocation
/// that was known at that address before, if there was one.
pub proof fn law_free_undoes_add_allocation(
    state: TrackerState,
    address: usize,
    allocation: Allocation,
)
    requires
        state.wf(),
        state.can_track(Event::Allocated { address, allocation }),
    ensures
        ({
            let after = state.add_allocation(address, allocation).free_allocation(address);
            let without = state.forget_allocation(address);
            &&& after.allocations == without.allocations
            &&& after.mmaps == without.mmaps
            &&& after.usage == without.usage
            &&& after.current_bytes == without.current_bytes
            &&& !state.allocations.contains_key(address) ==> without == state
        }),
{
    let after = state.add_allocation(address, allocation).free_allocation(address);
    let without = state.forget_allocation(address);
    lemma_forget_allocation(state, address);
    lemma_add_allocation(state, address, allocation);
    lemma_total_update(without.usage, allocation.callstack_id as int, 0);
    assert(after.allocations =~= without.allocations);
    assert(after.usage =~= without.usage);
}

/// Unmapping a mapping right after it was made leaves what there was, if it overlaps no other.
pub proof fn law_unmapping_undoes_mapping(
    state: TrackerState,
    address: usize,
    size: usize,
    id: CallstackId,
)
    requires
        state.wf(),
        state.can_track(Event::Mapped { address, size, id }),
        forall|i: int|
            0 <= i < state.mmaps.len() ==> overlap(
                #[trigger] state.mmaps[i],
                address as int,
                address + size,
            ) == 0,
    ensures
        ({
            let after = state.add_anon_mmap(address, size, id).free_anon_mmap(address, size);
            &&& after.allocations == state.allocations
            &&& after.mmaps == state.mmaps
            &&& after.usage == state.usage
            &&& after.current_bytes == state.current_bytes
        }),
{
    let mapped = state.add_anon_mmap(address, size, id);
    let after = mapped.free_anon_mmap(address, size);
    let lost = removed(mapped.mmaps, address as int, address + size);
    lemma_total_update(state.usage, id as int, 0);
    if size == 0 {
        law_removal_elsewhere_changes_nothing(state.mmaps, address as int, address + size);
        assert(lost.len() == 0);
    } else {
        let range = MappedRange { start: address, end: (address + size) as usize, value: id };
        law_removal_undoes_add(state.mmaps, range);
        assert(lost.drop_last() =~= Seq::empty());
        assert(lost.last() == (id, size));
        assert(lost_size(lost.drop_last()) == 0);
    }
    assert forall|i: int| 0 <= i < state.usage.len() implies after.usage[i] == state.usage[i] by {
        if size > 0 {
            assert(lost_with(lost.drop_last(), i as CallstackId) == 0);
        }
    }
    assert(after.usage =~= state.usage);
}

/// Ids of callstacks outlive every event and every reset.
pub proof fn law_callstack_ids_are_lasting(
    state: TrackerState,
    event: Event,
    default_path: Seq<char>,
    id: CallstackId,
)
    requires
        state.wf(),
        id < state.callstacks.len(),
    ensures
        id < state.step(event).callstacks.len(),
        state.step(event).callstacks[id as int] == state.callstacks[id as int],
        state.reset(default_path).callstacks == state.callstacks,
        state.oom_break_glass().callstacks == state.callstacks,
{
}

/// The ids of the callstacks that have been seen.
pub open spec fn ids_in(
    callstacks: Seq<Seq<CallSiteId>>,
) -> spec_fn(Seq<CallSiteId>) -> CallstackId {
    |calls: Seq<CallSiteId>| id_of(callstacks, calls)
}

/// An id that a thread remembers for its callstack stays right, whatever is tracked meanwhile, and
/// even across a reset.
pub proof fn law_remembered_ids_stay_right(
    state: TrackerState,
    event: Event,
    default_path: Seq<char>,
    callstack: CallstackView,
)
    requires
        state.wf(),
        callstack.agrees_with(ids_in(state.callstacks)),
        callstack.cached is Some ==> state.callstacks.contains(callstack.calls),
    ensures
        callstack.agrees_with(ids_in(state.step(event).callstacks)),
        callstack.agrees_with(ids_in(state.reset(default_path).callstacks)),
{
    if callstack.cached is Some {
        let before = state.callstacks;
        let after = state.step(event).callstacks;
        let k = before.index_of(callstack.calls);
        assert(before[k] == callstack.calls);
        assert(after[k] == callstack.calls);
        assert(after.contains(callstack.calls));
        assert(after.no_duplicates());
    }
}

/// A callstack that was seen before gets the id that it had, and seeing it changes nothing.
pub proof fn law_known_callstacks_keep_their_id(state: TrackerState, calls: Seq<CallSiteId>)
    requires
        state.wf(),
        state.callstacks.contains(calls),
    ensures
        state.see_callstack(calls) == state,
        id_of(state.see_callstack(calls).callstacks, calls) == id_of(state.callstacks, calls),
{
}

/// Giving memory up leaves alone what is reported of the memory that is held now.
pub proof fn law_break_glass_keeps_the_current_report(state: TrackerState)
    ensures
        useful_callstacks(state.oom_break_glass().check_if_new_peak().usage) == useful_callstacks(
            state.check_if_new_peak().usage,
        ),
        state.oom_break_glass().callstacks == state.callstacks,
        state.oom_break_glass().functions == state.functions,
        state.oom_break_glass().current_bytes == state.current_bytes,
{
}

/// After a reset a tracker is as good as new, but for the functions and the callstacks that it
/// knows, each of which holds nothing.
pub proof fn law_reset_starts_over(state: TrackerState, default_path: Seq<char>)
    ensures
        state.reset(default_path) == (TrackerState {
            functions: state.functions,
            callstacks: state.callstacks,
            usage: Seq::new(state.usage.len(), |i: int| 0usize),
            ..TrackerState::initial(default_path)
        }),
{
}

/// A new peak remembers of every callstack the bytes that are counted for that callstack, which are
/// those that it holds. Without a new peak, the old one stays. Nothing else changes.
pub proof fn law_peaks_remember_every_callstack(state: TrackerState)
    ensures
        ({
            let after = state.check_if_new_peak();
            &&& state.current_bytes > state.peak_bytes ==> {
                &&& after.peak_bytes == state.current_bytes
                &&& after.peak_usage.len() == state.usage.len()
                &&& forall|i: int|
                    0 <= i < state.usage.len() ==> #[trigger] after.peak_usage[i] == state.usage[i]
                &&& state.consistent() ==> forall|id: CallstackId|
                    id < state.usage.len() ==> #[trigger] after.peak_usage[id as int]
                        == state.held_by(id)
            }
            &&& state.current_bytes <= state.peak_bytes ==> {
                &&& after.peak_bytes == state.peak_bytes
                &&& after.peak_usage == state.peak_usage
            }
            &&& after.allocations == state.allocations
            &&& after.mmaps == state.mmaps
            &&& after.functions == state.functions
            &&& after.callstacks == state.callstacks
            &&& after.usage == state.usage
            &&& after.current_bytes == state.current_bytes
            &&& after.default_path == state.default_path
        }),
{
    if state.consistent() && state.current_bytes > state.peak_bytes {
        let after = state.check_if_new_peak();
        assert forall|id: CallstackId| id < state.usage.len() implies
            #[trigger] after.peak_usage[id as int] == state.held_by(id) by {
            assert(state.held_by(id) == state.usage[id as int]);
        }
    }
}

proof fn lemma_can_track_first(state: TrackerState, events: Seq<Event>, n: int)
    requires
        state.can_track_all(events),
        0 <= n <= events.len(),
    ensures
        state.can_track_all(events.take(n)),
    decreases events.len(),
{
    if n == events.len() {
        assert(events.take(n) =~= events);
    } else {
        lemma_can_track_first(state, events.drop_last(), n);
        assert(events.drop_last().take(n) =~= events.take(n));
    }
}

/// Whether the peak of a tracker is the state after the first `n` events: as many bytes, and as many
/// for each callstack.
pub open spec fn peaked_after(
    state: TrackerState,
    events: Seq<Event>,
    n: int,
    peak_bytes: nat,
    peak_usage: Seq<usize>,
) -> bool {
    &&& 0 <= n <= events.len()
    &&& state.after(events.take(n)).current_bytes == peak_bytes
    &&& state.after(events.take(n)).usage.len() == peak_usage.len()
    &&& forall|i: int|
        0 <= i < peak_usage.len() ==> #[trigger] peak_usage[i] == state.after(
            events.take(n),
        ).usage[i]
}

/// Whatever happens, the peak that is remembered is one that there was: there was a moment at which
/// as many bytes were held, and each callstack held what is remembered of it. Otherwise the peak is
/// still the one from before.
pub proof fn law_the_peak_is_a_moment_that_there_was(state: TrackerState, events: Seq<Event>)
    requires
        state.wf(),
        state.can_track_all(events),
    ensures
        ({
            let after = state.after(events);
            ||| after.peak_bytes == state.peak_bytes && after.peak_usage == state.peak_usage
            ||| exists|n: int| #[trigger]
                peaked_after(state, events, n, after.peak_bytes, after.peak_usage)
        }),
        state.consistent() ==> forall|n: int, id: CallstackId|
            #![trigger state.after(events.take(n)).held_by(id)]
            peaked_after(
                state,
                events,
                n,
                state.after(events).peak_bytes,
                state.after(events).peak_usage,
            ) && id < state.after(events).peak_usage.len() ==> state.after(
                events,
            ).peak_usage[id as int] == state.after(events.take(n)).held_by(id),
    decreases events.len(),
{
    let after = state.after(events);
    if events.len() > 0 {
        let first = events.drop_last();
        let before = state.after(first);
        law_any_events_keep_the_books(state, first);
        law_the_peak_is_a_moment_that_there_was(state, first);
        law_peaks_remember_every_callstack(before);
        let last = events.len() - 1;
        assert(events.take(last) =~= first);
        if after.peak_bytes == before.peak_bytes && after.peak_usage == before.peak_usage {
            if !(before.peak_bytes == state.peak_bytes && before.peak_usage == state.peak_usage) {
                let n = choose|n: int| #[trigger]
                    peaked_after(state, first, n, before.peak_bytes, before.peak_usage);
                assert(first.take(n) =~= events.take(n));
                assert(peaked_after(state, events, n, after.peak_bytes, after.peak_usage));
            }
        } else {
            assert(peaked_after(state, events, last, after.peak_bytes, after.peak_usage));
        }
    }
    if state.consistent() {
        assert forall|n: int, id: CallstackId|
            #![trigger state.after(events.take(n)).held_by(id)]
            peaked_after(state, events, n, after.peak_bytes, after.peak_usage) && id
                < after.peak_usage.len() implies after.peak_usage[id as int] == state.after(
            events.take(n),
        ).held_by(id) by {
            lemma_can_track_first(state, events, n);
            law_any_events_keep_the_books(state, events.take(n));
            let then = state.after(events.take(n));
            assert(then.held_by(id) == then.usage[id as int]);
        }
    }
}

/// The bytes that go with the allocation at an address, for callstack `id`.
pub open spec fn bytes_gone(state: TrackerState, address: usize, id: CallstackId) -> nat {
    if state.allocations.contains_key(address) && state.allocations[address].callstack_id == id {
        state.allocations[address].bytes()
    } else {
        0
    }
}

/// An allocation is known at its address, belongs to the callstack that made it, and is charged to
/// that callstack and to no other, with its remembered size. What was known at that address before
/// is charged back. Other addresses, and everything else, stay as they were.
pub proof fn law_allocations_are_charged_to_their_callstack(
    state: TrackerState,
    address: usize,
    size: usize,
    id: CallstackId,
    any: CallstackId,
)
    requires
        state.wf(),
        id < state.callstacks.len(),
        any < state.callstacks.len(),
        state.current_bytes - size_at(state.allocations, address) + remembered_size(size as nat)
            <= usize::MAX,
    ensures
        ({
            let after = state.add_allocation(address, allocation_of(id, size as nat));
            let bytes = remembered_size(size as nat);
            let charged = if any == id {
                bytes
            } else {
                0
            };
            let gone = bytes_gone(state, address, any);
            &&& after.allocations.contains_key(address)
            &&& after.allocations[address].callstack_id == id
            &&& after.allocations[address].bytes() == bytes
            &&& size < 0x8000_0000 ==> bytes == size
            &&& forall|other: usize|
                other != address ==> (#[trigger] after.allocations.contains_key(other)
                    == state.allocations.contains_key(other)) && after.allocations[other]
                    == state.allocations[other]
            &&& after.usage.len() == state.usage.len()
            &&& after.usage[any as int] == state.usage[any as int] - gone + charged
            &&& after.held_by(any) == state.held_by(any) - gone + charged
            &&& after.current_bytes == state.current_bytes - size_at(state.allocations, address)
                + bytes
            &&& !state.allocations.contains_key(address) ==> gone == 0 && after.current_bytes
                == state.current_bytes + bytes
            &&& after.mmaps == state.mmaps
            &&& after.functions == state.functions
            &&& after.callstacks == state.callstacks
            &&& after.peak_usage == state.peak_usage
            &&& after.peak_bytes == state.peak_bytes
            &&& after.default_path == state.default_path
        }),
{
    let allocation = allocation_of(id, size as nat);
    let after = state.add_allocation(address, allocation);
    let cleared = state.forget_allocation(address);
    law_allocations_are_remembered(id, size as nat);
    lemma_forget_allocation(state, address);
    lemma_add_allocation(state, address, allocation);
    lemma_weigh_insert(state.allocations, bytes_of(any), address, allocation);
    lemma_total_update(cleared.usage, id as int, 0);
    if state.allocations.contains_key(address) {
        lemma_weigh_remove(state.allocations, bytes_of(any), address);
    } else {
        assert(state.allocations.remove(address) =~= state.allocations);
    }
}

/// A freed allocation is no longer known, and is charged back to its callstack and to no other.
/// Where nothing was known, nothing is charged back. Other addresses, and everything else but the
/// peak, stay as they were; of the peak no more changes than when it is looked for.
pub proof fn law_freed_allocations_are_charged_back(
    state: TrackerState,
    address: usize,
    any: CallstackId,
)
    requires
        state.wf(),
        any < state.callstacks.len(),
    ensures
        ({
            let after = state.free_allocation(address);
            let gone = bytes_gone(state, address, any);
            &&& !after.allocations.contains_key(address)
            &&& forall|other: usize|
                other != address ==> (#[trigger] after.allocations.contains_key(other)
                    == state.allocations.contains_key(other)) && after.allocations[other]
                    == state.allocations[other]
            &&& after.usage.len() == state.usage.len()
            &&& after.usage[any as int] == state.usage[any as int] - gone
            &&& after.held_by(any) == state.held_by(any) - gone
            &&& after.current_bytes == state.current_bytes - size_at(state.allocations, address)
            &&& after.mmaps == state.mmaps
            &&& after.functions == state.functions
            &&& after.callstacks == state.callstacks
            &&& after.peak_usage == state.check_if_new_peak().peak_usage
            &&& after.peak_bytes == state.check_if_new_peak().peak_bytes
            &&& after.default_path == state.default_path
        }),
{
    let checked = state.check_if_new_peak();
    law_peaks_remember_every_callstack(state);
    lemma_check_if_new_peak(state);
    lemma_forget_allocation(checked, address);
    if state.allocations.contains_key(address) {
        lemma_weigh_remove(state.allocations, bytes_of(any), address);
    }
}

/// A mapping covers its own addresses for the callstack that made it, and is charged to that
/// callstack and to no other, with its size. Everything else stays as it was.
pub proof fn law_mappings_are_charged_to_their_callstack(
    state: TrackerState,
    address: usize,
    size: usize,
    id: CallstackId,
    any: CallstackId,
    place: int,
)
    requires
        state.wf(),
        id < state.callstacks.len(),
        any < state.callstacks.len(),
        address + size <= usize::MAX,
        state.current_bytes + size <= usize::MAX,
    ensures
        ({
            let after = state.add_anon_mmap(address, size, id);
            let charged = if any == id {
                size as nat
            } else {
                0
            };
            &&& times_mapped(after.mmaps, place, any) == times_mapped(state.mmaps, place, any) + (
            if any == id && address <= place && place < address + size {
                1nat
            } else {
                0
            })
            &&& after.usage.len() == state.usage.len()
            &&& after.usage[any as int] == state.usage[any as int] + charged
            &&& after.held_by(any) == state.held_by(any) + charged
            &&& after.current_bytes == state.current_bytes + size
            &&& after.allocations == state.allocations
            &&& after.functions == state.functions
            &&& after.callstacks == state.callstacks
            &&& after.peak_usage == state.peak_usage
            &&& after.peak_bytes == state.peak_bytes
            &&& after.default_path == state.default_path
        }),
{
    let range = MappedRange { start: address, end: (address + size) as usize, value: id };
    law_added_ranges_map_their_addresses(state.mmaps, range, place, any);
    law_sizes_of_ranges_add_up(state.mmaps, range, any);
    lemma_add_anon_mmap(state, address, size, id);
    lemma_total_update(state.usage, id as int, 0);
}

/// By callstack, how many mapped addresses lie in a range of addresses.
pub open spec fn addresses_by_callstack(
    mmaps: Seq<MappedRange<CallstackId>>,
    address: usize,
    size: usize,
) -> spec_fn(int) -> nat {
    |i: int| addresses_mapped(mmaps, address as int, address + size, i as CallstackId)
}

/// Unmapping takes the given addresses and no others, from whatever mapped them, be it all of a
/// mapping, some of it or parts of several. Each callstack is charged back just the addresses that
/// it had mapped there, and the bytes that are held fall by just those of all callstacks. Everything
/// else but the peak stays as it was; of the peak no more changes than when it is looked for.
pub proof fn law_unmapping_takes_just_those_addresses(
    state: TrackerState,
    address: usize,
    size: usize,
    any: CallstackId,
    place: int,
)
    requires
        state.wf(),
        any < state.callstacks.len(),
    ensures
        ({
            let after = state.free_anon_mmap(address, size);
            let gone = addresses_mapped(state.mmaps, address as int, address + size, any);
            &&& times_mapped(after.mmaps, place, any) == (if address <= place && place < address
                + size {
                0
            } else {
                times_mapped(state.mmaps, place, any)
            })
            &&& after.usage.len() == state.usage.len()
            &&& after.usage[any as int] == state.usage[any as int] - gone
            &&& after.held_by(any) == state.held_by(any) - gone
            &&& after.current_bytes == state.current_bytes - sum_below(
                addresses_by_callstack(state.mmaps, address, size),
                state.callstacks.len(),
            )
            &&& after.allocations == state.allocations
            &&& after.functions == state.functions
            &&& after.callstacks == state.callstacks
            &&& after.peak_usage == state.check_if_new_peak().peak_usage
            &&& after.peak_bytes == state.check_if_new_peak().peak_bytes
            &&& after.default_path == state.default_path
        }),
{
    let after = state.free_anon_mmap(address, size);
    let start = address as int;
    let end = address + size;
    let lost = removed(state.mmaps, start, end);
    let n = state.callstacks.len();
    law_peaks_remember_every_callstack(state);
    law_removal_unmaps_just_that_range(state.mmaps, start, end, place, any);
    lemma_lost_is_held(state, address, size);
    lemma_free_anon_mmap(state, address, size);
    lemma_removal_adds_up(state.mmaps, start, end, any);
    let gone = addresses_by_callstack(state.mmaps, address, size);
    let counted = |i: int| state.usage[i] as nat;
    let left = |i: int| after.usage[i] as nat;
    assert forall|i: int| 0 <= i < n implies #[trigger] counted(i) == left(i) + gone(i) by {
        law_losses_are_the_addresses_removed(state.mmaps, start, end, i as CallstackId);
        assert(lost_with(lost, i as CallstackId) <= state.usage[i]);
    }
    lemma_sum_below_add(left, gone, counted, n);
    lemma_total_is_sum_below(state.usage, counted);
    lemma_total_is_sum_below(after.usage, left);
    assert(counted(any as int) == left(any as int) + gone(any as int));
    law_losses_are_the_addresses_removed(state.mmaps, start, end, any);
}

/// A callstack that has not been seen gets the next id, and nothing is counted for it. Nothing else
/// changes, and nothing at all if it has been seen.
pub proof fn law_new_callstacks_hold_nothing(
    state: TrackerState,
    calls: Seq<CallSiteId>,
    id: CallstackId,
)
    requires
        state.wf(),
    ensures
        ({
            let after = state.see_callstack(calls);
            let n = state.callstacks.len() as int;
            &&& state.callstacks.contains(calls) ==> after == state
            &&& !state.callstacks.contains(calls) ==> {
                &&& after.callstacks.len() == n + 1
                &&& after.callstacks[n] == calls
                &&& after.usage.len() == n + 1
                &&& after.usage[n] == 0
            }
            &&& id < n ==> after.callstacks[id as int] == state.callstacks[id as int]
            &&& id < n ==> after.usage[id as int] == state.usage[id as int]
            &&& after.allocations == state.allocations
            &&& after.mmaps == state.mmaps
            &&& after.functions == state.functions
            &&& after.peak_usage == state.peak_usage
            &&& after.peak_bytes == state.peak_bytes
            &&& after.current_bytes == state.current_bytes
            &&& after.default_path == state.default_path
        }),
{
}

/// A function that is registered comes behind the others. Nothing else changes.
pub proof fn law_functions_come_behind_the_others(state: TrackerState, name: FunctionName, i: int)
    ensures
        ({
            let after = state.see_function(name);
            &&& after.functions.len() == state.functions.len() + 1
            &&& after.functions[state.functions.len() as int] == name
            &&& 0 <= i < state.functions.len() ==> after.functions[i] == state.functions[i]
            &&& after.allocations == state.allocations
            &&& after.mmaps == state.mmaps
            &&& after.callstacks == state.callstacks
            &&& after.usage == state.usage
            &&& after.peak_usage == state.peak_usage
            &&& after.peak_bytes == state.peak_bytes
            &&& after.current_bytes == state.current_bytes
            &&& after.default_path == state.default_path
        }),
{
}

/// Different lines of the same innermost call have different ids.
pub proof fn law_different_lines_have_different_ids(
    state: TrackerState,
    callstack: CallstackView,
    a: u16,
    b: u16,
)
    requires
        state.wf(),
        callstack.calls.len() > 0,
        a != 0,
        b != 0,
        a != b,
        state.callstacks.contains(callstack.moved_to(a).calls),
        state.callstacks.contains(callstack.moved_to(b).calls),
    ensures
        id_of(state.callstacks, callstack.moved_to(a).calls) != id_of(
            state.callstacks,
            callstack.moved_to(b).calls,
        ),
{
    law_different_lines_make_different_callstacks(callstack, a, b);
    let i = state.callstacks.index_of(callstack.moved_to(a).calls);
    let j = state.callstacks.index_of(callstack.moved_to(b).calls);
    assert(state.callstacks[i] == callstack.moved_to(a).calls);
    assert(state.callstacks[j] == callstack.moved_to(b).calls);
}

/// The size at an address is that of the allocation that is known there, or 0.
pub proof fn law_sizes_are_those_of_known_allocations(state: TrackerState, address: usize)
    ensures
        state.allocations.contains_key(address) ==> size_at(state.allocations, address)
            == state.allocations[address].bytes(),
        !state.allocations.contains_key(address) ==> size_at(state.allocations, address) == 0,
{
}

/// Breaking the glass forgets the allocations and what each callstack held at the peak. Everything
/// else stays as it was.
pub proof fn law_break_glass_forgets_only_what_is_not_needed(state: TrackerState)
    ensures
        ({
            let after = state.oom_break_glass();
            &&& after.allocations.dom() == Set::<usize>::empty()
            &&& after.peak_usage.len() == 0
            &&& after.mmaps == state.mmaps
            &&& after.functions == state.functions
            &&& after.callstacks == state.callstacks
            &&& after.usage == state.usage
            &&& after.current_bytes == state.current_bytes
            &&& after.peak_bytes == state.peak_bytes
            &&& after.default_path == state.default_path
        }),
{
}

/// A reset forgets allocations, mappings and the peak, counts 0 for every callstack, and takes the
/// new path. Functions and callstacks stay.
pub proof fn law_reset_counts_nothing(state: TrackerState, default_path: Seq<char>, i: int)
    ensures
        ({
            let after = state.reset(default_path);
            &&& after.allocations.dom() == Set::<usize>::empty()
            &&& after.mmaps.len() == 0
            &&& after.functions == state.functions
            &&& after.callstacks == state.callstacks
            &&& after.usage.len() == state.usage.len()
            &&& 0 <= i < state.usage.len() ==> after.usage[i] == 0
            &&& after.peak_usage.len() == 0
            &&& after.current_bytes == 0
            &&& after.peak_bytes == 0
            &&& after.default_path == default_path
        }),
{
}

/// A report of a peak tells, of each callstack that it tells of, what that callstack held at the
/// peak; a report of now tells what it holds now.
pub proof fn law_reports_tell_what_callstacks_hold(state: TrackerState, id: CallstackId)
    requires
        state.consistent(),
    ensures
        ({
            let checked = state.check_if_new_peak();
            &&& checked.reported(false).contains_key(id) ==> checked.reported(false)[id]
                == state.held_by(id)
            &&& checked.reported(true).contains_key(id) ==> checked.reported(true)[id]
                == checked.peak_usage[id as int]
            &&& checked.reported(true).contains_key(id) && state.current_bytes > state.peak_bytes
                ==> checked.reported(true)[id] == state.held_by(id)
            &&& 100 * bytes_listed(checked.reported(true)) >= 99 * checked.peak_bytes
            &&& 100 * bytes_listed(checked.reported(false)) >= 99 * state.current_bytes
        }),
{
    let checked = state.check_if_new_peak();
    lemma_check_if_new_peak(state);
    law_peaks_remember_every_callstack(state);
    law_reported_bytes_are_99_percent(checked.peak_usage);
    law_reported_bytes_are_99_percent(checked.usage);
    if checked.reported(false).contains_key(id) {
        law_callstacks_are_reported_with_their_bytes(checked.usage, id);
        assert(state.held_by(id) == state.usage[id as int]);
    }
    if checked.reported(true).contains_key(id) {
        law_callstacks_are_reported_with_their_bytes(checked.peak_usage, id);
        if state.current_bytes > state.peak_bytes {
            assert(state.held_by(id) == state.usage[id as int]);
        }
    }
}

/// Each event does what the operation does that tracks it, and events do so one after the other.
pub proof fn law_events_happen_one_after_the_other(
    state: TrackerState,
    events: Seq<Event>,
    event: Event,
)
    ensures
        state.after(Seq::<Event>::empty()) == state,
        state.after(events.push(event)) == state.after(events).step(event),
        state.can_track_all(Seq::<Event>::empty()),
        state.can_track_all(events.push(event)) <==> state.can_track_all(events) && state.after(
            events,
        ).can_track(event),
        state.sees_every_peak(Seq::<Event>::empty()),
        state.sees_every_peak(events.push(event)) <==> state.sees_every_peak(events)
            && !state.after(events).overlooks_peak(event),
        match event {
            Event::PeakChecked => state.step(event) == state.check_if_new_peak(),
            Event::FunctionSeen { name } => state.step(event) == state.see_function(name),
            Event::CallstackSeen { calls } => state.step(event) == state.see_callstack(calls),
            Event::Allocated { address, allocation } => state.step(event) == state.add_allocation(
                address,
                allocation,
            ),
            Event::Freed { address } => state.step(event) == state.free_allocation(address),
            Event::Mapped { address, size, id } => state.step(event) == state.add_anon_mmap(
                address,
                size,
                id,
            ),
            Event::Unmapped { address, size } => state.step(event) == state.free_anon_mmap(
                address,
                size,
            ),
        },
{
    assert(events.push(event).drop_last() =~= events);
}

/// Looking for a peak, seeing functions, freeing and unmapping can always be tracked. A new callstack
/// can be as long as there are ids, and memory that is had can be if its callstack is known and the
/// numbers stay within bounds.
pub proof fn law_events_within_bounds_can_be_tracked(
    state: TrackerState,
    calls: Seq<CallSiteId>,
    name: FunctionName,
    address: usize,
    size: usize,
    id: CallstackId,
)
    requires
        state.wf(),
    ensures
        state.can_track(Event::PeakChecked),
        state.can_track(Event::FunctionSeen { name }),
        state.callstacks.len() < u32::MAX ==> state.can_track(Event::CallstackSeen { calls }),
        state.callstacks.contains(calls) ==> state.can_track(Event::CallstackSeen { calls }),
        id < state.callstacks.len() && state.current_bytes - size_at(state.allocations, address)
            + remembered_size(size as nat) <= usize::MAX ==> state.can_track(
            Event::Allocated { address, allocation: allocation_of(id, size as nat) },
        ),
        state.can_track(Event::Freed { address }),
        id < state.callstacks.len() && address + size <= usize::MAX && state.current_bytes + size
            <= usize::MAX ==> state.can_track(Event::Mapped { address, size, id }),
        state.can_track(Event::Unmapped { address, size }),
{
    law_allocations_are_remembered(id, size as nat);
    lemma_forget_allocation(state, address);
}

/// Only an allocation that takes the place of a known, larger one, made while more is held than at
/// the last peak, can overlook a peak.
pub proof fn law_only_replaced_allocations_overlook_peaks(state: TrackerState, event: Event)
    requires
        state.overlooks_peak(event),
    ensures
        state.current_bytes > state.peak_bytes,
        match event {
            Event::Allocated { address, allocation } => state.allocations.contains_key(address)
                && allocation.bytes() < state.allocations[address].bytes(),
            _ => false,
        },
{
}

/// The most that is held while events happen is held at one moment, and no more at any other.
pub proof fn law_most_held_is_a_maximum(state: TrackerState, events: Seq<Event>)
    ensures
        forall|n: int|
            0 <= n <= events.len() ==> (#[trigger] state.after(events.take(n))).current_bytes
                <= state.most_held(events),
        exists|n: int|
            0 <= n <= events.len() && (#[trigger] state.after(events.take(n))).current_bytes
                == state.most_held(events),
    decreases events.len(),
{
    assert(events.take(events.len() as int) =~= events);
    assert(state.after(events.take(events.len() as int)) == state.after(events));
    if events.len() > 0 {
        let first = events.drop_last();
        law_most_held_is_a_maximum(state, first);
        assert forall|n: int| 0 <= n <= events.len() implies (#[trigger] state.after(
            events.take(n),
        )).current_bytes <= state.most_held(events) by {
            if n < events.len() {
                assert(first.take(n) =~= events.take(n));
                assert(state.after(first.take(n)).current_bytes <= state.most_held(first));
            }
        }
        if state.after(events).current_bytes <= state.most_held(first) {
            let n = choose|n: int|
                0 <= n <= first.len() && (#[trigger] state.after(first.take(n))).current_bytes
                    == state.most_held(first);
            assert(first.take(n) =~= events.take(n));
        }
    }
}

} // verus!
