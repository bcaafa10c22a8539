//! What a tracker knows, and what each event does to it.

use crate::allocation::Allocation;
use crate::callstack::{CallSiteId, CallstackId};
use crate::functions::FunctionName;
use crate::interner::interned;
use crate::rangemap::{
    lemma_removal_adds_up, lemma_removal_values, lost_size, lost_with, ranges_size, ranges_wf,
    remaining, removed, size_with, MappedRange,
};
use crate::usage::{
    lemma_sum_below_add, lemma_sum_below_bump, lemma_sum_below_monotone, lemma_sum_below_zeros,
    lemma_total_is_sum_below, lemma_total_push, lemma_total_update, lemma_total_zeros, sum_below,
    total,
};
use vstd::prelude::*;

verus! {

/// The sum of `weight` over allocations.
pub open spec fn weigh_allocations(
    allocations: Map<usize, Allocation>,
    weight: spec_fn(Allocation) -> nat,
) -> nat
    decreases allocations.dom().len(),
{
    if allocations.dom().finite() && allocations.dom().len() > 0 {
        let address = allocations.dom().choose();
        weight(allocations[address]) + weigh_allocations(allocations.remove(address), weight)
    } else {
        0
    }
}

/// What an allocation counts for.
pub open spec fn any_bytes() -> spec_fn(Allocation) -> nat {
    |allocation: Allocation| allocation.bytes()
}

/// What an allocation counts for when only those of callstack `id` count.
pub open spec fn bytes_of(id: CallstackId) -> spec_fn(Allocation) -> nat {
    |allocation: Allocation|
        if allocation.callstack_id == id {
            allocation.bytes()
        } else {
            0
        }
}

/// The remembered sizes of all allocations together.
pub open spec fn allocated_bytes(allocations: Map<usize, Allocation>) -> nat {
    weigh_allocations(allocations, any_bytes())
}

/// The remembered sizes of the allocations of callstack `id` together.
pub open spec fn allocated_by(allocations: Map<usize, Allocation>, id: CallstackId) -> nat {
    weigh_allocations(allocations, bytes_of(id))
}

/// The size of the allocation at an address, or 0 if none is known there.
pub open spec fn size_at(allocations: Map<usize, Allocation>, address: usize) -> nat {
    if allocations.contains_key(address) {
        allocations[address].bytes()
    } else {
        0
    }
}

/// Byte counts with `bytes` more for callstack `id`.
pub open spec fn with_more(usage: Seq<usize>, id: CallstackId, bytes: nat) -> Seq<usize> {
    usage.update(id as int, (usage[id as int] + bytes) as usize)
}

/// Byte counts with `bytes` less for callstack `id`.
pub open spec fn with_less(usage: Seq<usize>, id: CallstackId, bytes: nat) -> Seq<usize> {
    usage.update(id as int, (usage[id as int] - bytes) as usize)
}

/// Byte counts without what each callstack lost.
pub open spec fn without_lost(usage: Seq<usize>, lost: Seq<(CallstackId, usize)>) -> Seq<usize> {
    Seq::new(
        usage.len(),
        |i: int| (usage[i] - lost_with(lost, i as CallstackId)) as usize,
    )
}

/// What a tracker knows.
#[verifier::ext_equal]
pub struct TrackerState {
    /// The known allocations by address.
    pub allocations: Map<usize, Allocation>,
    /// The known anonymous mappings.
    pub mmaps: Seq<MappedRange<CallstackId>>,
    /// The registered functions. The id of a function is its index.
    pub functions: Seq<FunctionName>,
    /// The callstacks that have been seen. The id of a callstack is its index.
    pub callstacks: Seq<Seq<CallSiteId>>,
    /// The bytes that each callstack holds now.
    pub usage: Seq<usize>,
    /// The bytes that each callstack held at the last peak that was noticed.
    pub peak_usage: Seq<usize>,
    /// The bytes that are held now.
    pub current_bytes: nat,
    /// The bytes that were held at the last peak that was noticed.
    pub peak_bytes: nat,
    /// Where to write to if nothing else is said.
    pub default_path: Seq<char>,
}

impl TrackerState {
    /// The bytes of the known allocations and mappings of callstack `id`.
    pub open spec fn held_by(self, id: CallstackId) -> nat {
        allocated_by(self.allocations, id) + size_with(self.mmaps, id)
    }

    /// The bytes of all known allocations and mappings.
    pub open spec fn held(self) -> nat {
        allocated_bytes(self.allocations) + ranges_size(self.mmaps)
    }

    /// Every callstack has its byte count, which covers the known allocations and mappings of that
    /// callstack, all of which have a callstack; the totals fit the byte counts.
    pub open spec fn wf(self) -> bool {
        &&& self.allocations.dom().finite()
        &&& forall|address: usize| #[trigger]
            self.allocations.contains_key(address) ==> self.allocations[address].wf()
                && self.allocations[address].callstack_id < self.usage.len()
        &&& ranges_wf(self.mmaps)
        &&& forall|i: int|
            0 <= i < self.mmaps.len() ==> (#[trigger] self.mmaps[i]).value < self.usage.len()
        &&& self.usage.len() == self.callstacks.len()
        &&& self.callstacks.len() <= u32::MAX
        &&& self.callstacks.no_duplicates()
        &&& forall|id: CallstackId|
            id < self.usage.len() ==> #[trigger] self.held_by(id) <= self.usage[id as int]
        &&& self.current_bytes == total(self.usage)
        &&& self.current_bytes <= usize::MAX
        &&& self.peak_usage.len() <= self.usage.len()
        &&& total(self.peak_usage) <= self.peak_bytes
        &&& self.peak_bytes <= usize::MAX
    }

    /// In addition the byte counts are just those of the known allocations and mappings, and the
    /// peak is the total of its byte counts.
    pub open spec fn consistent(self) -> bool {
        &&& self.wf()
        &&& forall|id: CallstackId|
            id < self.usage.len() ==> #[trigger] self.held_by(id) == self.usage[id as int]
        &&& total(self.peak_usage) == self.peak_bytes
    }

    /// The sums that ought to agree do agree, and no peak has been missed.
    pub open spec fn valid(self) -> bool {
        &&& self.peak_bytes >= self.current_bytes
        &&& self.held() == self.current_bytes
        &&& total(self.usage) == self.current_bytes
        &&& total(self.peak_usage) == self.peak_bytes
    }

    /// A tracker that has seen nothing.
    pub open spec fn initial(default_path: Seq<char>) -> TrackerState {
        TrackerState {
            allocations: Map::empty(),
            mmaps: Seq::empty(),
            functions: Seq::empty(),
            callstacks: Seq::empty(),
            usage: Seq::empty(),
            peak_usage: Seq::empty(),
            current_bytes: 0,
            peak_bytes: 0,
            default_path,
        }
    }

    /// A peak is noticed, if there is one.
    pub open spec fn check_if_new_peak(self) -> TrackerState {
        if self.current_bytes > self.peak_bytes {
            TrackerState { peak_bytes: self.current_bytes, peak_usage: self.usage, ..self }
        } else {
            self
        }
    }

    /// A function is registered.
    pub open spec fn see_function(self, name: FunctionName) -> TrackerState {
        TrackerState { functions: self.functions.push(name), ..self }
    }

    /// A callstack is seen.
    pub open spec fn see_callstack(self, calls: Seq<CallSiteId>) -> TrackerState {
        TrackerState {
            callstacks: interned(self.callstacks, calls),
            usage: if self.callstacks.contains(calls) {
                self.usage
            } else {
                self.usage.push(0)
            },
            ..self
        }
    }

    /// The allocation at an address is gone, if there was one.
    pub open spec fn forget_allocation(self, address: usize) -> TrackerState {
        if self.allocations.contains_key(address) {
            let gone = self.allocations[address];
            TrackerState {
                allocations: self.allocations.remove(address),
                usage: with_less(self.usage, gone.callstack_id, gone.bytes()),
                current_bytes: (self.current_bytes - gone.bytes()) as nat,
                ..self
            }
        } else {
            self
        }
    }

    /// Memory is allocated. If an allocation is known at that address, its end was missed: it is
    /// forgotten.
    pub open spec fn add_allocation(
        self,
        address: usize,
        allocation: Allocation,
    ) -> TrackerState {
        let cleared = self.forget_allocation(address);
        TrackerState {
            allocations: self.allocations.insert(address, allocation),
            usage: with_more(cleared.usage, allocation.callstack_id, allocation.bytes()),
            current_bytes: cleared.current_bytes + allocation.bytes(),
            ..self
        }
    }

    /// Memory is freed. If no allocation is known at that address, nothing happens but that a peak
    /// is noticed.
    pub open spec fn free_allocation(self, address: usize) -> TrackerState {
        self.check_if_new_peak().forget_allocation(address)
    }

    /// Memory is mapped.
    pub open spec fn add_anon_mmap(
        self,
        address: usize,
        size: usize,
        id: CallstackId,
    ) -> TrackerState {
        TrackerState {
            mmaps: if size == 0 {
                self.mmaps
            } else {
                self.mmaps.push(
                    MappedRange { start: address, end: (address + size) as usize, value: id },
                )
            },
            usage: with_more(self.usage, id, size as nat),
            current_bytes: self.current_bytes + size as nat,
            ..self
        }
    }

    /// Memory is unmapped: all of a mapping, some of it, or parts of several.
    pub open spec fn free_anon_mmap(self, address: usize, size: usize) -> TrackerState {
        let checked = self.check_if_new_peak();
        let lost = removed(self.mmaps, address as int, address + size);
        TrackerState {
            mmaps: remaining(self.mmaps, address as int, address + size),
            usage: without_lost(self.usage, lost),
            current_bytes: (self.current_bytes - lost_size(lost)) as nat,
            ..checked
        }
    }

    /// Memory is given up that is not needed to report what is held now.
    pub open spec fn oom_break_glass(self) -> TrackerState {
        TrackerState { allocations: Map::empty(), peak_usage: Seq::empty(), ..self }
    }

    /// Everything but the functions and the callstacks is forgotten.
    pub open spec fn reset(self, default_path: Seq<char>) -> TrackerState {
        TrackerState {
            allocations: Map::empty(),
            mmaps: Seq::empty(),
            usage: Seq::new(self.usage.len(), |i: int| 0usize),
            peak_usage: Seq::empty(),
            current_bytes: 0,
            peak_bytes: 0,
            default_path,
            ..self
        }
    }
}

/// Any one allocation can be counted apart from the others.
pub proof fn lemma_weigh_remove(
    allocations: Map<usize, Allocation>,
    weight: spec_fn(Allocation) -> nat,
    address: usize,
)
    requires
        allocations.dom().finite(),
        allocations.contains_key(address),
    ensures
        weigh_allocations(allocations, weight) == weight(allocations[address])
            + weigh_allocations(allocations.remove(address), weight),
    decreases allocations.dom().len(),
{
    let first = allocations.dom().choose();
    assert(allocations.dom().contains(address));
    assert(allocations.dom().contains(first));
    if first != address {
        let rest = allocations.remove(first);
        assert(rest.dom() =~= allocations.dom().remove(first));
        lemma_weigh_remove(rest, weight, address);
        let others = allocations.remove(address);
        assert(others.dom() =~= allocations.dom().remove(address));
        assert(others.contains_key(first));
        lemma_weigh_remove(others, weight, first);
        assert(rest.remove(address) =~= others.remove(first));
    }
}

pub proof fn lemma_weigh_insert(
    allocations: Map<usize, Allocation>,
    weight: spec_fn(Allocation) -> nat,
    address: usize,
    allocation: Allocation,
)
    requires
        allocations.dom().finite(),
    ensures
        weigh_allocations(allocations.insert(address, allocation), weight) == weight(allocation)
            + weigh_allocations(allocations.remove(address), weight),
{
    let inserted = allocations.insert(address, allocation);
    assert(inserted.dom() =~= allocations.dom().insert(address));
    lemma_weigh_remove(inserted, weight, address);
    assert(inserted.remove(address) =~= allocations.remove(address));
}

/// A callstack without allocations holds no allocated bytes.
proof fn lemma_allocated_by_nobody(allocations: Map<usize, Allocation>, id: CallstackId)
    requires
        forall|address: usize| #[trigger]
            allocations.contains_key(address) ==> allocations[address].callstack_id != id,
    ensures
        allocated_by(allocations, id) == 0,
    decreases allocations.dom().len(),
{
    if allocations.dom().finite() && allocations.dom().len() > 0 {
        let address = allocations.dom().choose();
        assert(allocations.contains_key(address));
        let rest = allocations.remove(address);
        assert forall|other: usize| #[trigger] rest.contains_key(other) implies rest[other].callstack_id
            != id by {
            assert(allocations.contains_key(other));
        }
        lemma_allocated_by_nobody(rest, id);
    }
}

/// A callstack without mappings holds no mapped bytes.
proof fn lemma_mapped_by_nobody(mmaps: Seq<MappedRange<CallstackId>>, id: CallstackId)
    requires
        forall|i: int| 0 <= i < mmaps.len() ==> (#[trigger] mmaps[i]).value != id,
    ensures
        size_with(mmaps, id) == 0,
    decreases mmaps.len(),
{
    if mmaps.len() > 0 {
        let rest = mmaps.drop_last();
        assert forall|i: int| 0 <= i < rest.len() implies (#[trigger] rest[i]).value != id by {
            assert(rest[i] == mmaps[i]);
        }
        lemma_mapped_by_nobody(rest, id);
        assert(mmaps.last() == mmaps[mmaps.len() - 1]);
    }
}

/// The allocated bytes by callstack.
spec fn allocated_by_each(allocations: Map<usize, Allocation>) -> spec_fn(int) -> nat {
    |i: int| allocated_by(allocations, i as CallstackId)
}

/// The mapped bytes by callstack.
spec fn mapped_by_each(mmaps: Seq<MappedRange<CallstackId>>) -> spec_fn(int) -> nat {
    |i: int| size_with(mmaps, i as CallstackId)
}

/// The held bytes by callstack.
spec fn held_by_each(state: TrackerState) -> spec_fn(int) -> nat {
    |i: int| state.held_by(i as CallstackId)
}

proof fn lemma_allocated_by_all(allocations: Map<usize, Allocation>, n: nat)
    requires
        n <= 0x1_0000_0000,
        allocations.dom().finite(),
        forall|address: usize| #[trigger]
            allocations.contains_key(address) ==> allocations[address].callstack_id < n,
    ensures
        allocated_bytes(allocations) == sum_below(allocated_by_each(allocations), n),
    decreases allocations.dom().len(),
{
    let each = allocated_by_each(allocations);
    if allocations.dom().len() > 0 {
        let address = allocations.dom().choose();
        let allocation = allocations[address];
        assert(allocations.contains_key(address));
        let rest = allocations.remove(address);
        assert forall|other: usize| #[trigger] rest.contains_key(other) implies rest[other].callstack_id
            < n by {
            assert(allocations.contains_key(other));
        }
        lemma_allocated_by_all(rest, n);
        let k = allocation.callstack_id as int;
        assert forall|i: int| 0 <= i < n && i != k implies #[trigger] each(i) == allocated_by_each(
            rest,
        )(i) by {
            lemma_weigh_remove(allocations, bytes_of(i as CallstackId), address);
        }
        lemma_weigh_remove(allocations, bytes_of(k as CallstackId), address);
        lemma_sum_below_bump(allocated_by_each(rest), each, n, k, allocation.bytes());
    } else {
        lemma_sum_below_zeros(each, n);
    }
}

proof fn lemma_mapped_by_all(mmaps: Seq<MappedRange<CallstackId>>, n: nat)
    requires
        n <= 0x1_0000_0000,
        forall|i: int| 0 <= i < mmaps.len() ==> (#[trigger] mmaps[i]).value < n,
    ensures
        ranges_size(mmaps) == sum_below(mapped_by_each(mmaps), n),
    decreases mmaps.len(),
{
    let each = mapped_by_each(mmaps);
    if mmaps.len() > 0 {
        let rest = mmaps.drop_last();
        let last = mmaps.last();
        assert forall|i: int| 0 <= i < rest.len() implies (#[trigger] rest[i]).value < n by {
            assert(rest[i] == mmaps[i]);
        }
        assert(last == mmaps[mmaps.len() - 1]);
        lemma_mapped_by_all(rest, n);
        lemma_sum_below_bump(
            mapped_by_each(rest),
            each,
            n,
            last.value as int,
            (last.end - last.start) as nat,
        );
    } else {
        lemma_sum_below_zeros(each, n);
    }
}

/// What is held is within what is counted, and is what is counted if every byte count is exact.
pub proof fn lemma_held(state: TrackerState)
    requires
        state.wf(),
    ensures
        state.held() <= state.current_bytes,
        state.consistent() ==> state.held() == state.current_bytes,
{
    let n = state.usage.len();
    let counted = |i: int| state.usage[i] as nat;
    let each = held_by_each(state);
    lemma_allocated_by_all(state.allocations, n);
    lemma_mapped_by_all(state.mmaps, n);
    lemma_sum_below_add(allocated_by_each(state.allocations), mapped_by_each(state.mmaps), each, n);
    lemma_total_is_sum_below(state.usage, counted);
    assert forall|i: int| 0 <= i < n implies #[trigger] each(i) <= #[trigger] counted(i) by {
        assert(state.held_by(i as CallstackId) <= state.usage[i]);
    }
    lemma_sum_below_monotone(each, counted, n);
    if state.consistent() {
        assert forall|i: int| 0 <= i < n implies #[trigger] counted(i) <= #[trigger] each(i) by {
            assert(state.held_by(i as CallstackId) == state.usage[i]);
        }
        lemma_sum_below_monotone(counted, each, n);
    }
}

/// A new tracker is consistent.
pub proof fn lemma_initial(default_path: Seq<char>)
    ensures
        TrackerState::initial(default_path).consistent(),
{
    let state = TrackerState::initial(default_path);
    assert forall|id: CallstackId| id < state.usage.len() implies #[trigger] state.held_by(id)
        == state.usage[id as int] by {}
}

/// Noticing a peak keeps a tracker well formed and consistent.
pub proof fn lemma_check_if_new_peak(state: TrackerState)
    requires
        state.wf(),
    ensures
        state.check_if_new_peak().wf(),
        state.consistent() ==> state.check_if_new_peak().consistent(),
{
    let after = state.check_if_new_peak();
    assert forall|id: CallstackId| id < after.usage.len() implies #[trigger] after.held_by(id)
        == state.held_by(id) by {}
}

/// Registering a function keeps a tracker well formed and consistent.
pub proof fn lemma_see_function(state: TrackerState, name: FunctionName)
    requires
        state.wf(),
    ensures
        state.see_function(name).wf(),
        state.consistent() ==> state.see_function(name).consistent(),
{
    let after = state.see_function(name);
    assert forall|id: CallstackId| id < after.usage.len() implies #[trigger] after.held_by(id)
        == state.held_by(id) by {}
}

/// Seeing a callstack keeps a tracker well formed and consistent.
pub proof fn lemma_see_callstack(state: TrackerState, calls: Seq<CallSiteId>)
    requires
        state.wf(),
        state.callstacks.contains(calls) || state.callstacks.len() < u32::MAX,
    ensures
        state.see_callstack(calls).wf(),
        state.consistent() ==> state.see_callstack(calls).consistent(),
{
    let after = state.see_callstack(calls);
    assert forall|id: CallstackId| id < after.usage.len() implies #[trigger] after.held_by(id)
        == state.held_by(id) by {}
    if !state.callstacks.contains(calls) {
        let new_id = state.usage.len() as CallstackId;
        lemma_total_push(state.usage, 0);
        lemma_allocated_by_nobody(state.allocations, new_id);
        lemma_mapped_by_nobody(state.mmaps, new_id);
        assert(after.held_by(new_id) == 0);
    }
}

/// Forgetting an allocation keeps a tracker well formed and consistent.
pub proof fn lemma_forget_allocation(state: TrackerState, address: usize)
    requires
        state.wf(),
    ensures
        state.forget_allocation(address).wf(),
        state.consistent() ==> state.forget_allocation(address).consistent(),
        state.allocations.contains_key(address) ==> {
            let gone = state.allocations[address];
            gone.bytes() <= state.usage[gone.callstack_id as int] && gone.bytes()
                <= state.current_bytes
        },
{
    let after = state.forget_allocation(address);
    if state.allocations.contains_key(address) {
        let gone = state.allocations[address];
        let k = gone.callstack_id;
        assert forall|id: CallstackId| id < after.usage.len() implies #[trigger] after.held_by(id)
            == state.held_by(id) - bytes_of(id)(gone) by {
            lemma_weigh_remove(state.allocations, bytes_of(id), address);
        }
        assert(state.held_by(k) <= state.usage[k as int]);
        assert(after.held_by(k) == state.held_by(k) - gone.bytes());
        lemma_total_update(state.usage, k as int, (state.usage[k as int] - gone.bytes()) as usize);
        assert forall|other: usize| #[trigger] after.allocations.contains_key(other) implies
            after.allocations[other].wf() && after.allocations[other].callstack_id
            < after.usage.len() by {
            assert(state.allocations.contains_key(other));
        }
        assert forall|id: CallstackId| id < after.usage.len() implies #[trigger] after.held_by(id)
            <= after.usage[id as int] by {
            assert(state.held_by(id) <= state.usage[id as int]);
        }
        if state.consistent() {
            assert forall|id: CallstackId| id < after.usage.len() implies #[trigger] after.held_by(
                id,
            ) == after.usage[id as int] by {
                assert(state.held_by(id) == state.usage[id as int]);
            }
        }
    }
}

/// Adding an allocation keeps a tracker well formed and consistent.
pub proof fn lemma_add_allocation(state: TrackerState, address: usize, allocation: Allocation)
    requires
        state.wf(),
        allocation.wf(),
        allocation.callstack_id < state.callstacks.len(),
        state.add_allocation(address, allocation).current_bytes <= usize::MAX,
    ensures
        state.add_allocation(address, allocation).wf(),
        state.consistent() ==> state.add_allocation(address, allocation).consistent(),
{
    let cleared = state.forget_allocation(address);
    let after = state.add_allocation(address, allocation);
    let k = allocation.callstack_id;
    lemma_forget_allocation(state, address);
    assert(cleared.allocations =~= state.allocations.remove(address));
    lemma_total_update(
        cleared.usage,
        k as int,
        (cleared.usage[k as int] + allocation.bytes()) as usize,
    );
    assert forall|id: CallstackId| id < after.usage.len() implies #[trigger] after.held_by(id)
        == cleared.held_by(id) + bytes_of(id)(allocation) by {
        lemma_weigh_insert(state.allocations, bytes_of(id), address, allocation);
    }
    assert forall|other: usize| #[trigger] after.allocations.contains_key(other) implies
        after.allocations[other].wf() && after.allocations[other].callstack_id
        < after.usage.len() by {
        if other != address {
            assert(state.allocations.contains_key(other));
        }
    }
    assert forall|id: CallstackId| id < after.usage.len() implies #[trigger] after.held_by(id)
        <= after.usage[id as int] by {
        assert(cleared.held_by(id) <= cleared.usage[id as int]);
    }
    if state.consistent() {
        assert forall|id: CallstackId| id < after.usage.len() implies #[trigger] after.held_by(id)
            == after.usage[id as int] by {
            assert(cleared.held_by(id) == cleared.usage[id as int]);
        }
    }
}

/// Adding a mapping keeps a tracker well formed and consistent.
pub proof fn lemma_add_anon_mmap(state: TrackerState, address: usize, size: usize, id: CallstackId)
    requires
        state.wf(),
        id < state.callstacks.len(),
        address + size <= usize::MAX,
        state.current_bytes + size <= usize::MAX,
    ensures
        state.add_anon_mmap(address, size, id).wf(),
        state.consistent() ==> state.add_anon_mmap(address, size, id).consistent(),
{
    let after = state.add_anon_mmap(address, size, id);
    lemma_total_update(state.usage, id as int, (state.usage[id as int] + size) as usize);
    if size > 0 {
        assert(after.mmaps.drop_last() =~= state.mmaps);
    }
    assert forall|other: CallstackId| other < after.usage.len() implies #[trigger] after.held_by(
        other,
    ) == state.held_by(other) + (if other == id {
        size as nat
    } else {
        0
    }) by {}
    assert forall|other: CallstackId| other < after.usage.len() implies #[trigger] after.held_by(
        other,
    ) <= after.usage[other as int] by {
        assert(state.held_by(other) <= state.usage[other as int]);
    }
    if state.consistent() {
        assert forall|other: CallstackId| other < after.usage.len() implies
            #[trigger] after.held_by(other) == after.usage[other as int] by {
            assert(state.held_by(other) == state.usage[other as int]);
        }
    }
}

/// Taking one more loss from byte counts.
proof fn lemma_without_lost_step(usage: Seq<usize>, lost: Seq<(CallstackId, usize)>)
    requires
        usage.len() <= 0x1_0000_0000,
        lost.len() > 0,
        lost.last().0 < usage.len(),
        lost_with(lost, lost.last().0) <= usage[lost.last().0 as int],
    ensures
        without_lost(usage, lost) == with_less(
            without_lost(usage, lost.drop_last()),
            lost.last().0,
            lost.last().1 as nat,
        ),
        lost.last().1 <= without_lost(usage, lost.drop_last())[lost.last().0 as int],
{
    assert(without_lost(usage, lost) =~= with_less(
        without_lost(usage, lost.drop_last()),
        lost.last().0,
        lost.last().1 as nat,
    ));
}

/// What each callstack lost adds up to what was lost.
proof fn lemma_without_lost(usage: Seq<usize>, lost: Seq<(CallstackId, usize)>)
    requires
        usage.len() <= 0x1_0000_0000,
        forall|i: int| 0 <= i < lost.len() ==> (#[trigger] lost[i]).0 < usage.len(),
        forall|id: CallstackId|
            id < usage.len() ==> #[trigger] lost_with(lost, id) <= usage[id as int],
    ensures
        total(without_lost(usage, lost)) + lost_size(lost) == total(usage),
    decreases lost.len(),
{
    if lost.len() == 0 {
        assert(without_lost(usage, lost) =~= usage);
    } else {
        let rest = lost.drop_last();
        assert forall|i: int| 0 <= i < rest.len() implies (#[trigger] rest[i]).0 < usage.len() by {
            assert(rest[i] == lost[i]);
        }
        assert(lost.last() == lost[lost.len() - 1]);
        assert forall|id: CallstackId| id < usage.len() implies #[trigger] lost_with(rest, id)
            <= usage[id as int] by {
            assert(lost_with(lost, id) <= usage[id as int]);
        }
        assert(lost_with(lost, lost.last().0) <= usage[lost.last().0 as int]);
        lemma_without_lost(usage, rest);
        lemma_without_lost_step(usage, lost);
        let before = without_lost(usage, rest);
        let k = lost.last().0 as int;
        lemma_total_update(before, k, (before[k] - lost.last().1) as usize);
    }
}

proof fn lemma_lost_with_take(lost: Seq<(CallstackId, usize)>, n: int, id: CallstackId)
    requires
        0 <= n <= lost.len(),
    ensures
        lost_with(lost.take(n), id) <= lost_with(lost, id),
    decreases lost.len() - n,
{
    if n == lost.len() {
        assert(lost.take(n) =~= lost);
    } else {
        lemma_lost_with_take(lost, n + 1, id);
        assert(lost.take(n + 1).drop_last() =~= lost.take(n));
    }
}

/// Taking losses from byte counts one by one never takes more than is there.
pub proof fn lemma_without_first_lost(usage: Seq<usize>, lost: Seq<(CallstackId, usize)>, n: int)
    requires
        usage.len() <= 0x1_0000_0000,
        forall|i: int| 0 <= i < lost.len() ==> (#[trigger] lost[i]).0 < usage.len(),
        forall|id: CallstackId|
            id < usage.len() ==> #[trigger] lost_with(lost, id) <= usage[id as int],
        0 <= n < lost.len(),
    ensures
        lost[n].1 <= without_lost(usage, lost.take(n))[lost[n].0 as int],
        without_lost(usage, lost.take(n + 1)) == with_less(
            without_lost(usage, lost.take(n)),
            lost[n].0,
            lost[n].1 as nat,
        ),
        lost_size(lost.take(n + 1)) == lost_size(lost.take(n)) + lost[n].1,
        lost_size(lost.take(n + 1)) <= total(usage),
{
    let taken = lost.take(n + 1);
    assert(taken.drop_last() =~= lost.take(n));
    assert forall|i: int| 0 <= i < taken.len() implies (#[trigger] taken[i]).0 < usage.len() by {
        assert(taken[i] == lost[i]);
    }
    assert forall|id: CallstackId| id < usage.len() implies #[trigger] lost_with(taken, id)
        <= usage[id as int] by {
        lemma_lost_with_take(lost, n + 1, id);
        assert(lost_with(lost, id) <= usage[id as int]);
    }
    lemma_without_lost(usage, taken);
    assert(taken.last() == taken[n]);
    assert(lost_with(taken, taken.last().0) <= usage[taken.last().0 as int]);
    lemma_without_lost_step(usage, taken);
}

/// What unmapping takes away is no more than what callstacks hold.
pub proof fn lemma_lost_is_held(state: TrackerState, address: usize, size: usize)
    requires
        state.wf(),
    ensures
        ({
            let lost = removed(state.mmaps, address as int, address + size);
            &&& forall|i: int| 0 <= i < lost.len() ==> (#[trigger] lost[i]).0 < state.usage.len()
            &&& forall|id: CallstackId|
                id < state.usage.len() ==> #[trigger] lost_with(lost, id)
                    <= state.usage[id as int]
            &&& lost_size(lost) <= state.current_bytes
        }),
{
    let lost = removed(state.mmaps, address as int, address + size);
    let known = |id: CallstackId| id < state.usage.len();
    lemma_removal_values(state.mmaps, address as int, address + size, known);
    assert forall|i: int| 0 <= i < lost.len() implies (#[trigger] lost[i]).0 < state.usage.len() by {
        assert(known(lost[i].0));
    }
    assert forall|id: CallstackId| id < state.usage.len() implies #[trigger] lost_with(lost, id)
        <= state.usage[id as int] by {
        lemma_removal_adds_up(state.mmaps, address as int, address + size, id);
        assert(state.held_by(id) <= state.usage[id as int]);
    }
    lemma_without_lost(state.usage, lost);
}

/// Removing mappings keeps a tracker well formed and consistent.
pub proof fn lemma_free_anon_mmap(state: TrackerState, address: usize, size: usize)
    requires
        state.wf(),
    ensures
        state.free_anon_mmap(address, size).wf(),
        state.consistent() ==> state.free_anon_mmap(address, size).consistent(),
{
    let after = state.free_anon_mmap(address, size);
    let lost = removed(state.mmaps, address as int, address + size);
    let known = |id: CallstackId| id < state.usage.len();
    lemma_check_if_new_peak(state);
    lemma_lost_is_held(state, address, size);
    lemma_without_lost(state.usage, lost);
    lemma_removal_values(state.mmaps, address as int, address + size, known);
    lemma_removal_adds_up(state.mmaps, address as int, address + size, 0);
    assert forall|i: int| 0 <= i < after.mmaps.len() implies (#[trigger] after.mmaps[i]).value
        < after.usage.len() by {
        assert(known(after.mmaps[i].value));
    }
    assert forall|id: CallstackId| id < after.usage.len() implies #[trigger] after.held_by(id)
        == state.held_by(id) - lost_with(lost, id) && after.usage[id as int]
        == state.usage[id as int] - lost_with(lost, id) by {
        lemma_removal_adds_up(state.mmaps, address as int, address + size, id);
        assert(lost_with(lost, id) <= state.usage[id as int]);
    }
    assert forall|id: CallstackId| id < after.usage.len() implies #[trigger] after.held_by(id)
        <= after.usage[id as int] by {
        assert(state.held_by(id) <= state.usage[id as int]);
    }
    if state.consistent() {
        assert forall|id: CallstackId| id < after.usage.len() implies #[trigger] after.held_by(id)
            == after.usage[id as int] by {
            assert(state.held_by(id) == state.usage[id as int]);
        }
    }
}

/// Giving memory up keeps a tracker well formed.
pub proof fn lemma_oom_break_glass(state: TrackerState)
    requires
        state.wf(),
    ensures
        state.oom_break_glass().wf(),
{
    let after = state.oom_break_glass();
    assert forall|id: CallstackId| id < after.usage.len() implies #[trigger] after.held_by(id)
        <= after.usage[id as int] by {
        assert(state.held_by(id) <= state.usage[id as int]);
        lemma_allocated_by_nobody(after.allocations, id);
    }
}

/// A reset leaves a tracker consistent and valid, whatever it was before.
pub proof fn lemma_reset(state: TrackerState, default_path: Seq<char>)
    requires
        state.wf(),
    ensures
        state.reset(default_path).consistent(),
        state.reset(default_path).valid(),
{
    let after = state.reset(default_path);
    lemma_total_zeros(after.usage);
    assert forall|id: CallstackId| id < after.usage.len() implies #[trigger] after.held_by(id)
        == after.usage[id as int] by {
        lemma_allocated_by_nobody(after.allocations, id);
    }
    lemma_held(after);
}

/// Without allocations no bytes are allocated. An allocation at an address where nothing was known
/// counts with its bytes, and only for its own callstack.
pub proof fn law_allocated_bytes_add_up(
    allocations: Map<usize, Allocation>,
    address: usize,
    allocation: Allocation,
    id: CallstackId,
)
    requires
        allocations.dom().finite(),
        !allocations.contains_key(address),
    ensures
        allocated_bytes(Map::<usize, Allocation>::empty()) == 0,
        allocated_by(Map::<usize, Allocation>::empty(), id) == 0,
        allocated_bytes(allocations.insert(address, allocation)) == allocated_bytes(allocations)
            + allocation.bytes(),
        allocated_by(allocations.insert(address, allocation), id) == allocated_by(allocations, id)
            + (if allocation.callstack_id == id {
            allocation.bytes()
        } else {
            0
        }),
{
    lemma_weigh_insert(allocations, any_bytes(), address, allocation);
    lemma_weigh_insert(allocations, bytes_of(id), address, allocation);
    assert(allocations.remove(address) =~= allocations);
}

/// What is held is what is allocated and what is mapped.
pub proof fn law_held_is_allocated_and_mapped(state: TrackerState, id: CallstackId)
    ensures
        state.held_by(id) == allocated_by(state.allocations, id) + size_with(state.mmaps, id),
        state.held() == allocated_bytes(state.allocations) + ranges_size(state.mmaps),
{
}

/// A new tracker knows nothing but its path.
pub proof fn law_new_trackers_know_nothing(default_path: Seq<char>)
    ensures
        ({
            let state = TrackerState::initial(default_path);
            &&& state.allocations.dom() == Set::<usize>::empty()
            &&& state.mmaps.len() == 0
            &&& state.functions.len() == 0
            &&& state.callstacks.len() == 0
            &&& state.usage.len() == 0
            &&& state.peak_usage.len() == 0
            &&& state.current_bytes == 0
            &&& state.peak_bytes == 0
            &&& state.default_path == default_path
        }),
{
}

/// A tracker is not valid if a peak was missed or any of its sums disagrees with another, and valid
/// otherwise.
pub proof fn law_validity_means_agreement(state: TrackerState)
    ensures
        state.peak_bytes < state.current_bytes ==> !state.valid(),
        allocated_bytes(state.allocations) + ranges_size(state.mmaps) != state.current_bytes
            ==> !state.valid(),
        total(state.usage) != state.current_bytes ==> !state.valid(),
        total(state.peak_usage) != state.peak_bytes ==> !state.valid(),
        state.valid() || state.peak_bytes < state.current_bytes || allocated_bytes(
            state.allocations,
        ) + ranges_size(state.mmaps) != state.current_bytes || total(state.usage)
            != state.current_bytes || total(state.peak_usage) != state.peak_bytes,
{
}

/// A consistent tracker counts for every callstack just what that callstack holds, and its totals are
/// those of its counts.
pub proof fn law_consistency_means_exact_counts(state: TrackerState, id: CallstackId)
    requires
        state.consistent(),
    ensures
        state.usage.len() == state.callstacks.len(),
        id < state.usage.len() ==> state.usage[id as int] == state.held_by(id),
        total(state.usage) == state.current_bytes,
        total(state.peak_usage) == state.peak_bytes,
{
    if id < state.usage.len() {
        assert(state.held_by(id) == state.usage[id as int]);
    }
}

} // verus!
