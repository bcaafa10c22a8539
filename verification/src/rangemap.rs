//! Ranges of addresses, each with a value.
//!
//! Ranges come and go independently of each other: part of a range can be removed, one removal
//! can cut through several ranges, and ranges may overlap.

use crate::hashing::{map_insert, new_hashmap};
use crate::usage::{lemma_sum_below_add, lemma_sum_below_zeros, sum_below};
use ahash::RandomState;
use std::collections::HashMap;
use vstd::prelude::*;

verus! {

/// The addresses from `start` up to but not including `end`.
#[derive(Copy, Debug)]
pub struct MappedRange<V> {
    pub start: usize,
    pub end: usize,
    pub value: V,
}

impl<V: Copy> Clone for MappedRange<V> {
    fn clone(&self) -> (copy: Self)
        ensures
            copy == *self,
    {
        *self
    }
}

/// How many addresses a range has in common with the addresses from `start` up to `end`.
pub open spec fn overlap<V>(range: MappedRange<V>, start: int, end: int) -> nat {
    let low = if range.start >= start {
        range.start as int
    } else {
        start
    };
    let high = if range.end <= end {
        range.end as int
    } else {
        end
    };
    if low < high {
        (high - low) as nat
    } else {
        0
    }
}

/// What is left of a range without the addresses from `start` up to `end`.
pub open spec fn pieces<V>(range: MappedRange<V>, start: int, end: int) -> Seq<MappedRange<V>> {
    if overlap(range, start, end) == 0 {
        seq![range]
    } else {
        let left = MappedRange { start: range.start, end: start as usize, value: range.value };
        let right = MappedRange { start: end as usize, end: range.end, value: range.value };
        (if range.start < start {
            seq![left]
        } else {
            Seq::empty()
        }) + (if end < range.end {
            seq![right]
        } else {
            Seq::empty()
        })
    }
}

/// What is left of each range, in the order of the ranges.
pub open spec fn remaining<V>(ranges: Seq<MappedRange<V>>, start: int, end: int) -> Seq<
    MappedRange<V>,
>
    decreases ranges.len(),
{
    if ranges.len() == 0 {
        Seq::empty()
    } else {
        remaining(ranges.drop_last(), start, end) + pieces(ranges.last(), start, end)
    }
}

/// For each range that loses addresses, in the order of the ranges, its value and how many.
pub open spec fn removed<V>(ranges: Seq<MappedRange<V>>, start: int, end: int) -> Seq<(V, usize)>
    decreases ranges.len(),
{
    if ranges.len() == 0 {
        Seq::empty()
    } else {
        let before = removed(ranges.drop_last(), start, end);
        let lost = overlap(ranges.last(), start, end);
        if lost > 0 {
            before.push((ranges.last().value, lost as usize))
        } else {
            before
        }
    }
}

/// The sizes of all ranges together.
pub open spec fn ranges_size<V>(ranges: Seq<MappedRange<V>>) -> nat
    decreases ranges.len(),
{
    if ranges.len() == 0 {
        0
    } else {
        ranges_size(ranges.drop_last()) + (ranges.last().end - ranges.last().start) as nat
    }
}

/// The sizes of the ranges with value `value` together.
pub open spec fn size_with<V>(ranges: Seq<MappedRange<V>>, value: V) -> nat
    decreases ranges.len(),
{
    if ranges.len() == 0 {
        0
    } else {
        size_with(ranges.drop_last(), value) + (if ranges.last().value == value {
            (ranges.last().end - ranges.last().start) as nat
        } else {
            0
        })
    }
}

/// How many addresses value `value` lost, according to what a removal returned.
pub open spec fn lost_with<V>(lost: Seq<(V, usize)>, value: V) -> nat
    decreases lost.len(),
{
    if lost.len() == 0 {
        0
    } else {
        lost_with(lost.drop_last(), value) + (if lost.last().0 == value {
            lost.last().1 as nat
        } else {
            0
        })
    }
}

/// How many addresses all values lost, according to what a removal returned.
pub open spec fn lost_size<V>(lost: Seq<(V, usize)>) -> nat
    decreases lost.len(),
{
    if lost.len() == 0 {
        0
    } else {
        lost_size(lost.drop_last()) + lost.last().1 as nat
    }
}

/// The start of every range, with its size and its value. Of ranges that start at the same
/// address the one that comes last counts.
pub open spec fn ranges_by_start<V>(ranges: Seq<MappedRange<V>>) -> Map<usize, (usize, V)>
    decreases ranges.len(),
{
    if ranges.len() == 0 {
        Map::empty()
    } else {
        let last = ranges.last();
        ranges_by_start(ranges.drop_last()).insert(
            last.start,
            ((last.end - last.start) as usize, last.value),
        )
    }
}

/// How often an address lies in a range with value `value`.
pub open spec fn times_mapped<V>(ranges: Seq<MappedRange<V>>, address: int, value: V) -> nat
    decreases ranges.len(),
{
    if ranges.len() == 0 {
        0
    } else {
        times_mapped(ranges.drop_last(), address, value) + (if ranges.last().start <= address
            < ranges.last().end && ranges.last().value == value {
            1nat
        } else {
            0
        })
    }
}

/// How often the addresses from `start` up to `end` lie in ranges with value `value`, counted
/// address by address.
pub open spec fn addresses_mapped<V>(
    ranges: Seq<MappedRange<V>>,
    start: int,
    end: int,
    value: V,
) -> nat {
    sum_below(
        times_mapped_from(ranges, start, value),
        if start < end {
            (end - start) as nat
        } else {
            0
        },
    )
}

/// By distance from `start`, how often an address lies in a range with value `value`.
pub open spec fn times_mapped_from<V>(
    ranges: Seq<MappedRange<V>>,
    start: int,
    value: V,
) -> spec_fn(int) -> nat {
    |i: int| times_mapped(ranges, start + i, value)
}

/// No range is empty.
pub open spec fn ranges_wf<V>(ranges: Seq<MappedRange<V>>) -> bool {
    forall|i: int| 0 <= i < ranges.len() ==> (#[trigger] ranges[i]).start < ranges[i].end
}

/// Maps ranges of addresses to values.
pub struct RangeMap<V> {
    ranges: Vec<MappedRange<V>>,
}

impl<V> View for RangeMap<V> {
    type V = Seq<MappedRange<V>>;

    /// The ranges, in the order in which they were added.
    closed spec fn view(&self) -> Seq<MappedRange<V>> {
        self.ranges@
    }
}

impl<V: Copy> RangeMap<V> {
    pub fn new() -> (map: Self)
        ensures
            map@ == Seq::<MappedRange<V>>::empty(),
            ranges_wf(map@),
    {
        RangeMap { ranges: Vec::new() }
    }

    /// Adds a range. One without addresses leaves no trace.
    pub fn add(&mut self, start: usize, length: usize, value: V)
        requires
            ranges_wf(old(self)@),
            start + length <= usize::MAX,
        ensures
            ranges_wf(final(self)@),
            final(self)@ == (if length == 0 {
                old(self)@
            } else {
                old(self)@.push(MappedRange { start, end: (start + length) as usize, value })
            }),
    {
        if length > 0 {
            self.ranges.push(MappedRange { start, end: start + length, value });
        }
    }

    /// Removes a range of addresses, and says which values lost how many addresses.
    pub fn remove(&mut self, start: usize, length: usize) -> (lost: Vec<(V, usize)>)
        requires
            ranges_wf(old(self)@),
        ensures
            ranges_wf(final(self)@),
            final(self)@ == remaining(old(self)@, start as int, start + length),
            lost@ == removed(old(self)@, start as int, start + length),
    {
        // No range goes beyond the last address, so stopping there is as good as going on.
        let end: usize = start.saturating_add(length);
        let mut kept: Vec<MappedRange<V>> = Vec::new();
        let mut lost: Vec<(V, usize)> = Vec::new();
        let mut i: usize = 0;
        while i < self.ranges.len()
            invariant
                ranges_wf(self.ranges@),
                self.ranges@ == old(self)@,
                i <= self.ranges.len(),
                end == start + length || (end == usize::MAX && start + length > usize::MAX),
                ranges_wf(kept@),
                kept@ == remaining(self.ranges@.take(i as int), start as int, start + length),
                lost@ == removed(self.ranges@.take(i as int), start as int, start + length),
            decreases self.ranges.len() - i,
        {
            let range: MappedRange<V> = self.ranges[i];
            let ghost before = kept@;
            proof {
                assert(self.ranges@.take(i + 1).drop_last() =~= self.ranges@.take(i as int));
            }
            let low: usize = if range.start >= start {
                range.start
            } else {
                start
            };
            let high: usize = if range.end <= end {
                range.end
            } else {
                end
            };
            if low < high {
                if range.start < start {
                    kept.push(MappedRange { start: range.start, end: start, value: range.value });
                }
                if end < range.end {
                    kept.push(MappedRange { start: end, end: range.end, value: range.value });
                }
                lost.push((range.value, high - low));
            } else {
                kept.push(range);
            }
            proof {
                assert(kept@ =~= before + pieces(range, start as int, start + length));
            }
            i = i + 1;
        }
        proof {
            assert(self.ranges@.take(i as int) =~= self.ranges@);
        }
        self.ranges = kept;
        lost
    }

    /// The sizes of all ranges together.
    pub fn size(&self) -> (size: usize)
        requires
            ranges_wf(self@),
            ranges_size(self@) <= usize::MAX,
        ensures
            size == ranges_size(self@),
    {
        let mut size: usize = 0;
        let mut i: usize = 0;
        while i < self.ranges.len()
            invariant
                ranges_wf(self.ranges@),
                ranges_size(self.ranges@) <= usize::MAX,
                i <= self.ranges.len(),
                size == ranges_size(self.ranges@.take(i as int)),
            decreases self.ranges.len() - i,
        {
            proof {
                assert(self.ranges@.take(i + 1).drop_last() =~= self.ranges@.take(i as int));
                lemma_ranges_size_take(self.ranges@, i + 1);
            }
            size = size + (self.ranges[i].end - self.ranges[i].start);
            i = i + 1;
        }
        proof {
            assert(self.ranges@.take(i as int) =~= self.ranges@);
        }
        size
    }

    /// The start of every range, with its size and its value.
    pub fn as_hashmap(&self) -> (map: HashMap<usize, (usize, V), RandomState>)
        requires
            ranges_wf(self@),
        ensures
            map@ == ranges_by_start(self@),
    {
        broadcast use vstd::std_specs::hash::group_hash_axioms;

        let mut map: HashMap<usize, (usize, V), RandomState> = new_hashmap();
        let mut i: usize = 0;
        while i < self.ranges.len()
            invariant
                ranges_wf(self.ranges@),
                i <= self.ranges.len(),
                map@ == ranges_by_start(self.ranges@.take(i as int)),
            decreases self.ranges.len() - i,
        {
            broadcast use vstd::std_specs::hash::group_hash_axioms;

            proof {
                assert(self.ranges@.take(i + 1).drop_last() =~= self.ranges@.take(i as int));
            }
            let range: MappedRange<V> = self.ranges[i];
            let _ = map_insert(&mut map, range.start, (range.end - range.start, range.value));
            i = i + 1;
        }
        proof {
            assert(self.ranges@.take(i as int) =~= self.ranges@);
        }
        map
    }
}

pub proof fn lemma_ranges_size_take<V>(ranges: Seq<MappedRange<V>>, n: int)
    requires
        0 <= n <= ranges.len(),
    ensures
        ranges_size(ranges.take(n)) <= ranges_size(ranges),
    decreases ranges.len() - n,
{
    if n == ranges.len() {
        assert(ranges.take(n) =~= ranges);
    } else {
        lemma_ranges_size_take(ranges, n + 1);
        assert(ranges.take(n + 1).drop_last() =~= ranges.take(n));
    }
}

proof fn lemma_concatenation<V>(a: Seq<MappedRange<V>>, b: Seq<MappedRange<V>>, address: int, value: V)
    ensures
        ranges_size(a + b) == ranges_size(a) + ranges_size(b),
        size_with(a + b, value) == size_with(a, value) + size_with(b, value),
        times_mapped(a + b, address, value) == times_mapped(a, address, value) + times_mapped(
            b,
            address,
            value,
        ),
    decreases b.len(),
{
    if b.len() == 0 {
        assert(a + b =~= a);
    } else {
        lemma_concatenation(a, b.drop_last(), address, value);
        assert((a + b).drop_last() =~= a + b.drop_last());
    }
}

/// A range is made up of its pieces and of what it loses.
proof fn lemma_pieces<V>(range: MappedRange<V>, start: int, end: int, address: int, value: V)
    requires
        range.start < range.end,
        0 <= start <= end,
    ensures
        ranges_wf(pieces(range, start, end)),
        forall|i: int|
            0 <= i < pieces(range, start, end).len() ==> (#[trigger] pieces(
                range,
                start,
                end,
            )[i]).value == range.value,
        ranges_size(pieces(range, start, end)) + overlap(range, start, end) == range.end
            - range.start,
        size_with(pieces(range, start, end), value) == (if range.value == value {
            ranges_size(pieces(range, start, end))
        } else {
            0
        }),
        times_mapped(pieces(range, start, end), address, value) == (if range.start <= address
            < range.end && range.value == value && !(start <= address < end) {
            1nat
        } else {
            0
        }),
{
    reveal_with_fuel(ranges_size, 3);
    reveal_with_fuel(size_with, 3);
    reveal_with_fuel(times_mapped, 3);
    let all = pieces(range, start, end);
    if all.len() == 2 {
        assert(all.drop_last() =~= seq![all[0]]);
        assert(all.drop_last().drop_last() =~= Seq::<MappedRange<V>>::empty());
    } else if all.len() == 1 {
        assert(all.drop_last() =~= Seq::<MappedRange<V>>::empty());
    }
}

/// What a removal leaves and what it returns add up to what there was.
pub proof fn lemma_removal_adds_up<V>(ranges: Seq<MappedRange<V>>, start: int, end: int, value: V)
    requires
        ranges_wf(ranges),
        0 <= start <= end,
    ensures
        ranges_wf(remaining(ranges, start, end)),
        size_with(remaining(ranges, start, end), value) + lost_with(
            removed(ranges, start, end),
            value,
        ) == size_with(ranges, value),
        ranges_size(remaining(ranges, start, end)) + lost_size(removed(ranges, start, end))
            == ranges_size(ranges),
    decreases ranges.len(),
{
    if ranges.len() > 0 {
        let rest = ranges.drop_last();
        let last = ranges.last();
        assert(ranges_wf(rest)) by {
            assert forall|i: int| 0 <= i < rest.len() implies (#[trigger] rest[i]).start
                < rest[i].end by {
                assert(ranges[i].start < ranges[i].end);
            }
        }
        assert(ranges[ranges.len() - 1].start < ranges[ranges.len() - 1].end);
        lemma_removal_adds_up(rest, start, end, value);
        lemma_pieces(last, start, end, 0, value);
        lemma_concatenation(remaining(rest, start, end), pieces(last, start, end), 0, value);
        let before = removed(rest, start, end);
        let lost = overlap(last, start, end);
        if lost > 0 {
            assert(before.push((last.value, lost as usize)).drop_last() =~= before);
        }
    }
}

/// The values of what a removal leaves, and the values that it returns, are values that there
/// were.
pub proof fn lemma_removal_values<V>(
    ranges: Seq<MappedRange<V>>,
    start: int,
    end: int,
    ok: spec_fn(V) -> bool,
)
    requires
        ranges_wf(ranges),
        0 <= start <= end,
        forall|i: int| 0 <= i < ranges.len() ==> ok((#[trigger] ranges[i]).value),
    ensures
        forall|i: int|
            0 <= i < remaining(ranges, start, end).len() ==> ok(
                (#[trigger] remaining(ranges, start, end)[i]).value,
            ),
        forall|i: int|
            0 <= i < removed(ranges, start, end).len() ==> ok(
                (#[trigger] removed(ranges, start, end)[i]).0,
            ),
    decreases ranges.len(),
{
    if ranges.len() > 0 {
        let rest = ranges.drop_last();
        let last = ranges.last();
        assert forall|i: int| 0 <= i < rest.len() implies ok((#[trigger] rest[i]).value) && rest[i].start
            < rest[i].end by {
            assert(rest[i] == ranges[i]);
        }
        assert(last == ranges[ranges.len() - 1]);
        lemma_removal_values(rest, start, end, ok);
        lemma_pieces(last, start, end, 0, last.value);
        let left = remaining(rest, start, end);
        let cut = pieces(last, start, end);
        assert forall|i: int| 0 <= i < remaining(ranges, start, end).len() implies ok(
            (#[trigger] remaining(ranges, start, end)[i]).value,
        ) by {
            if i < left.len() {
                assert(remaining(ranges, start, end)[i] == left[i]);
            } else {
                assert(remaining(ranges, start, end)[i] == cut[i - left.len()]);
            }
        }
        assert forall|i: int| 0 <= i < removed(ranges, start, end).len() implies ok(
            (#[trigger] removed(ranges, start, end)[i]).0,
        ) by {
            if i < removed(rest, start, end).len() {
                assert(removed(ranges, start, end)[i] == removed(rest, start, end)[i]);
            }
        }
    }
}

/// After a removal the removed addresses lie in no range, and every other address lies in the
/// ranges that it lay in before.
pub proof fn law_removal_unmaps_just_that_range<V>(
    ranges: Seq<MappedRange<V>>,
    start: int,
    end: int,
    address: int,
    value: V,
)
    requires
        ranges_wf(ranges),
        0 <= start <= end,
    ensures
        times_mapped(remaining(ranges, start, end), address, value) == (if start <= address < end {
            0
        } else {
            times_mapped(ranges, address, value)
        }),
    decreases ranges.len(),
{
    if ranges.len() > 0 {
        let rest = ranges.drop_last();
        let last = ranges.last();
        assert forall|i: int| 0 <= i < rest.len() implies (#[trigger] rest[i]).start < rest[i].end by {
            assert(rest[i] == ranges[i]);
        }
        assert(last == ranges[ranges.len() - 1]);
        law_removal_unmaps_just_that_range(rest, start, end, address, value);
        lemma_pieces(last, start, end, address, value);
        lemma_concatenation(remaining(rest, start, end), pieces(last, start, end), address, value);
    }
}

/// A removal that touches no range changes nothing and returns nothing.
pub proof fn law_removal_elsewhere_changes_nothing<V>(
    ranges: Seq<MappedRange<V>>,
    start: int,
    end: int,
)
    requires
        forall|i: int| 0 <= i < ranges.len() ==> overlap(#[trigger] ranges[i], start, end) == 0,
    ensures
        remaining(ranges, start, end) == ranges,
        removed(ranges, start, end) == Seq::<(V, usize)>::empty(),
    decreases ranges.len(),
{
    if ranges.len() > 0 {
        let rest = ranges.drop_last();
        assert forall|i: int| 0 <= i < rest.len() implies overlap(#[trigger] rest[i], start, end)
            == 0 by {
            assert(rest[i] == ranges[i]);
        }
        assert(ranges.last() == ranges[ranges.len() - 1]);
        law_removal_elsewhere_changes_nothing(rest, start, end);
        assert(rest + seq![ranges.last()] =~= ranges);
    } else {
        assert(remaining(ranges, start, end) =~= ranges);
    }
}

/// Removing a range right after it was added leaves what there was, if it overlapped no other.
pub proof fn law_removal_undoes_add<V>(ranges: Seq<MappedRange<V>>, range: MappedRange<V>)
    requires
        range.start < range.end,
        forall|i: int|
            0 <= i < ranges.len() ==> overlap(
                #[trigger] ranges[i],
                range.start as int,
                range.end as int,
            ) == 0,
    ensures
        remaining(ranges.push(range), range.start as int, range.end as int) == ranges,
        removed(ranges.push(range), range.start as int, range.end as int) == seq![
            (range.value, (range.end - range.start) as usize),
        ],
{
    law_removal_elsewhere_changes_nothing(ranges, range.start as int, range.end as int);
    let pushed = ranges.push(range);
    assert(pushed.drop_last() =~= ranges);
    assert(pushed.last() == range);
    assert(pieces(range, range.start as int, range.end as int) =~= Seq::<MappedRange<V>>::empty());
}

/// Nothing is mapped without ranges, and a range that is added maps just its own addresses, to its
/// own value, once more.
pub proof fn law_added_ranges_map_their_addresses<V>(
    ranges: Seq<MappedRange<V>>,
    range: MappedRange<V>,
    address: int,
    value: V,
)
    ensures
        times_mapped(Seq::<MappedRange<V>>::empty(), address, value) == 0,
        times_mapped(ranges.push(range), address, value) == times_mapped(ranges, address, value) + (
        if range.start <= address && address < range.end && range.value == value {
            1nat
        } else {
            0
        }),
{
    assert(ranges.push(range).drop_last() =~= ranges);
}

/// Every range counts with its length, and only for its own value.
pub proof fn law_sizes_of_ranges_add_up<V>(
    ranges: Seq<MappedRange<V>>,
    range: MappedRange<V>,
    value: V,
)
    requires
        range.start <= range.end,
    ensures
        ranges_size(Seq::<MappedRange<V>>::empty()) == 0,
        size_with(Seq::<MappedRange<V>>::empty(), value) == 0,
        ranges_size(ranges.push(range)) == ranges_size(ranges) + (range.end - range.start),
        size_with(ranges.push(range), value) == size_with(ranges, value) + (if range.value
            == value {
            range.end - range.start
        } else {
            0
        }),
{
    assert(ranges.push(range).drop_last() =~= ranges);
}

/// What was lost adds up, for each value and altogether.
pub proof fn law_losses_add_up<V>(lost: Seq<(V, usize)>, loss: (V, usize), value: V)
    ensures
        lost_size(Seq::<(V, usize)>::empty()) == 0,
        lost_with(Seq::<(V, usize)>::empty(), value) == 0,
        lost_size(lost.push(loss)) == lost_size(lost) + loss.1,
        lost_with(lost.push(loss), value) == lost_with(lost, value) + (if loss.0 == value {
            loss.1 as nat
        } else {
            0
        }),
{
    assert(lost.push(loss).drop_last() =~= lost);
}

/// One range, counted address by address.
proof fn lemma_overlap_counts_addresses<V>(
    range: MappedRange<V>,
    start: int,
    n: nat,
    value: V,
    f: spec_fn(int) -> nat,
)
    requires
        forall|i: int|
            0 <= i < n ==> #[trigger] f(i) == (if range.start <= start + i < range.end
                && range.value == value {
                1nat
            } else {
                0
            }),
    ensures
        sum_below(f, n) == (if range.value == value {
            overlap(range, start, start + n)
        } else {
            0
        }),
    decreases n,
{
    if n > 0 {
        lemma_overlap_counts_addresses(range, start, (n - 1) as nat, value, f);
        assert(f(n - 1) == (if range.start <= start + (n - 1) < range.end && range.value == value {
            1nat
        } else {
            0
        }));
    }
}

/// Each value loses just those of its addresses that are removed.
pub proof fn law_losses_are_the_addresses_removed<V>(
    ranges: Seq<MappedRange<V>>,
    start: int,
    end: int,
    value: V,
)
    requires
        ranges_wf(ranges),
        0 <= start <= end,
    ensures
        lost_with(removed(ranges, start, end), value) == addresses_mapped(
            ranges,
            start,
            end,
            value,
        ),
    decreases ranges.len(),
{
    let n = (end - start) as nat;
    let all = times_mapped_from(ranges, start, value);
    if ranges.len() == 0 {
        lemma_sum_below_zeros(all, n);
    } else {
        let rest = ranges.drop_last();
        let last = ranges.last();
        assert forall|i: int| 0 <= i < rest.len() implies (#[trigger] rest[i]).start
            < rest[i].end by {
            assert(rest[i] == ranges[i]);
        }
        law_losses_are_the_addresses_removed(rest, start, end, value);
        let others = times_mapped_from(rest, start, value);
        let own = |i: int|
            if last.start <= start + i < last.end && last.value == value {
                1nat
            } else {
                0
            };
        lemma_sum_below_add(others, own, all, n);
        lemma_overlap_counts_addresses(last, start, n, value, own);
        let before = removed(rest, start, end);
        let lost = overlap(last, start, end);
        if lost > 0 {
            law_losses_add_up(before, (last.value, lost as usize), value);
        }
    }
}

/// The size of the ranges with a value is the number of addresses that lie in them, counted as often
/// as they do.
pub proof fn law_sizes_count_addresses<V>(ranges: Seq<MappedRange<V>>, value: V)
    requires
        ranges_wf(ranges),
    ensures
        size_with(ranges, value) == addresses_mapped(ranges, 0, usize::MAX as int, value),
{
    let end = usize::MAX as int;
    law_losses_are_the_addresses_removed(ranges, 0, end, value);
    lemma_removal_adds_up(ranges, 0, end, value);
    lemma_nothing_remains(ranges, end);
}

proof fn lemma_nothing_remains<V>(ranges: Seq<MappedRange<V>>, end: int)
    requires
        ranges_wf(ranges),
        end == usize::MAX,
    ensures
        remaining(ranges, 0, end) == Seq::<MappedRange<V>>::empty(),
    decreases ranges.len(),
{
    if ranges.len() > 0 {
        let rest = ranges.drop_last();
        assert forall|i: int| 0 <= i < rest.len() implies (#[trigger] rest[i]).start
            < rest[i].end by {
            assert(rest[i] == ranges[i]);
        }
        assert(ranges.last() == ranges[ranges.len() - 1]);
        lemma_nothing_remains(rest, end);
        assert(remaining(ranges, 0, end) =~= Seq::<MappedRange<V>>::empty());
    }
}

/// A removal cuts each range by itself. A range outside stays whole; one inside goes; one that
/// sticks out keeps, as one piece, what sticks out on either side. What goes is told with the
/// range's value, in the order of the ranges.
pub proof fn law_removal_cuts_each_range_by_itself<V>(
    ranges: Seq<MappedRange<V>>,
    range: MappedRange<V>,
    start: usize,
    end: int,
)
    requires
        range.start < range.end,
        start < end,
    ensures
        ({
            let left = remaining(ranges, start as int, end);
            let lost = removed(ranges, start as int, end);
            let all_left = remaining(ranges.push(range), start as int, end);
            let all_lost = removed(ranges.push(range), start as int, end);
            let below = MappedRange { start: range.start, end: start, value: range.value };
            let above = MappedRange { start: end as usize, end: range.end, value: range.value };
            &&& remaining(Seq::<MappedRange<V>>::empty(), start as int, end).len() == 0
            &&& removed(Seq::<MappedRange<V>>::empty(), start as int, end).len() == 0
            &&& range.end <= start || end <= range.start ==> all_left == left.push(range)
                && all_lost == lost
            &&& start <= range.start && range.end <= end ==> all_left == left && all_lost
                == lost.push((range.value, (range.end - range.start) as usize))
            &&& range.start < start < range.end && range.end <= end ==> all_left == left.push(below)
                && all_lost == lost.push((range.value, (range.end - start) as usize))
            &&& start <= range.start && range.start < end < range.end ==> all_left == left.push(
                above,
            ) && all_lost == lost.push((range.value, (end - range.start) as usize))
            &&& range.start < start && end < range.end ==> all_left == left.push(below).push(above)
                && all_lost == lost.push((range.value, (end - start) as usize))
        }),
{
    let pushed = ranges.push(range);
    assert(pushed.drop_last() =~= ranges);
    let left = remaining(ranges, start as int, end);
    let all_left = remaining(pushed, start as int, end);
    let below = MappedRange { start: range.start, end: start, value: range.value };
    let above = MappedRange { start: end as usize, end: range.end, value: range.value };
    if range.end <= start || end <= range.start {
        assert(all_left =~= left.push(range));
    } else if range.start < start && end < range.end {
        assert(all_left =~= left.push(below).push(above));
    } else if range.start < start {
        assert(all_left =~= left.push(below));
    } else if end < range.end {
        assert(all_left =~= left.push(above));
    } else {
        assert(all_left =~= left);
    }
}

/// Removing no addresses changes nothing.
pub proof fn law_empty_removals_change_nothing<V>(ranges: Seq<MappedRange<V>>, start: int)
    ensures
        remaining(ranges, start, start) == ranges,
        removed(ranges, start, start).len() == 0,
{
    law_removal_elsewhere_changes_nothing(ranges, start, start);
}

/// By its start a range is found with its length and its value; a later range with the same start
/// takes its place, and no other.
pub proof fn law_ranges_are_found_by_start<V>(
    ranges: Seq<MappedRange<V>>,
    range: MappedRange<V>,
    address: usize,
)
    requires
        range.start <= range.end,
    ensures
        ({
            let before = ranges_by_start(ranges);
            let after = ranges_by_start(ranges.push(range));
            &&& !ranges_by_start(Seq::<MappedRange<V>>::empty()).contains_key(address)
            &&& address == range.start ==> after.contains_key(address) && after[address].0
                == range.end - range.start && after[address].1 == range.value
            &&& address != range.start ==> after.contains_key(address) == before.contains_key(
                address,
            )
            &&& address != range.start && before.contains_key(address) ==> after[address]
                == before[address]
        }),
{
    assert(ranges.push(range).drop_last() =~= ranges);
}

} // verus!
