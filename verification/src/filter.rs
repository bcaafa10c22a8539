//! Choosing the callstacks that are worth reporting.
//!
//! 1. Callstacks without memory are dropped.
//! 2. The callstacks that hold the top 99% of memory, starting with the largest, are kept.
//! 3. If those are fewer than 100, the next largest are kept too, up to 100: the goal is just to
//!    not have a vast number of useless tiny allocations.

use crate::callstack::CallstackId;
use crate::hashing::{map_insert, new_hashmap};
use crate::usage::{slots, sum_below, total, total_bytes, vector_iter};
use ahash::RandomState;
use im::Vector as ImVector;
use itertools::Itertools;
use std::cmp::Ordering;
use std::collections::HashMap;
use vstd::prelude::*;

verus! {

/// Whether callstack `j` is considered before callstack `i`: it holds more bytes, or as many and
/// has the smaller id.
pub open spec fn ranks_before(sizes: Seq<usize>, j: int, i: int) -> bool {
    sizes[j] > sizes[i] || (sizes[j] == sizes[i] && j < i)
}

/// How many of the first `n` callstacks are considered before callstack `i`.
pub open spec fn count_before(sizes: Seq<usize>, i: int, n: nat) -> nat
    decreases n,
{
    if n == 0 {
        0
    } else {
        count_before(sizes, i, (n - 1) as nat) + (if ranks_before(sizes, n - 1, i) {
            1nat
        } else {
            0
        })
    }
}

/// The bytes that those of the first `n` callstacks hold that are considered before callstack `i`.
pub open spec fn bytes_before(sizes: Seq<usize>, i: int, n: nat) -> nat
    decreases n,
{
    if n == 0 {
        0
    } else {
        bytes_before(sizes, i, (n - 1) as nat) + (if ranks_before(sizes, n - 1, i) {
            sizes[n - 1] as nat
        } else {
            0
        })
    }
}

/// Whether callstack `i` is kept: it holds memory, and either fewer than 100 callstacks are
/// considered before it, or those hold less than 99% of all bytes.
pub open spec fn is_useful(sizes: Seq<usize>, i: int) -> bool {
    &&& 0 <= i < sizes.len()
    &&& sizes[i] > 0
    &&& (count_before(sizes, i, sizes.len()) < 100 || 100 * bytes_before(sizes, i, sizes.len())
        < 99 * total(sizes))
}

/// The callstacks that are kept, with the bytes that each holds.
pub open spec fn useful_callstacks(sizes: Seq<usize>) -> Map<CallstackId, usize> {
    Map::new(|id: CallstackId| is_useful(sizes, id as int), |id: CallstackId| sizes[id as int])
}

/// The bytes that the kept callstacks hold together.
pub open spec fn useful_bytes(sizes: Seq<usize>) -> nat {
    sum_below(
        |i: int|
            if is_useful(sizes, i) {
                sizes[i] as nat
            } else {
                0
            },
        sizes.len(),
    )
}

/// How many callstacks are kept.
pub open spec fn useful_count(sizes: Seq<usize>) -> nat {
    sum_below(
        |i: int|
            if is_useful(sizes, i) {
                1nat
            } else {
                0
            },
        sizes.len(),
    )
}

/// The callstacks that hold memory, in order of their ids.
pub open spec fn holders(sizes: Seq<usize>) -> Seq<(CallstackId, usize)>
    decreases sizes.len(),
{
    if sizes.len() == 0 {
        Seq::empty()
    } else if sizes.last() > 0 {
        holders(sizes.drop_last()).push(((sizes.len() - 1) as CallstackId, sizes.last()))
    } else {
        holders(sizes.drop_last())
    }
}

/// `ranks_before` on pairs of an id and a byte count.
pub open spec fn pair_before(a: (CallstackId, usize), b: (CallstackId, usize)) -> bool {
    a.1 > b.1 || (a.1 == b.1 && a.0 < b.0)
}

/// `ranked` holds the callstacks that hold memory in the order in which they are considered.
pub open spec fn is_ranking(ranked: Seq<(CallstackId, usize)>, sizes: Seq<usize>) -> bool {
    &&& ranked.to_multiset() == holders(sizes).to_multiset()
    &&& forall|p: int, q: int|
        0 <= p < q < ranked.len() ==> pair_before(#[trigger] ranked[p], #[trigger] ranked[q])
}

/// The bytes of the first `n` pairs.
pub open spec fn bytes_of_first(ranked: Seq<(CallstackId, usize)>, n: int) -> nat
    decreases n,
{
    if n <= 0 {
        0
    } else {
        bytes_of_first(ranked, n - 1) + ranked[n - 1].1 as nat
    }
}

/// Whether the pair at position `p` of a ranking is kept.
pub open spec fn position_kept(ranked: Seq<(CallstackId, usize)>, p: int, total: nat) -> bool {
    p < 100 || 100 * bytes_of_first(ranked, p) < 99 * total
}

/// Whether the first `n` pairs of a ranking are those that are kept.
pub open spec fn is_cutoff(ranked: Seq<(CallstackId, usize)>, n: int, total: nat) -> bool {
    &&& 0 <= n <= ranked.len()
    &&& n < ranked.len() ==> !position_kept(ranked, n, total)
    &&& forall|p: int| 0 <= p < n ==> position_kept(ranked, p, total)
}

/// The pairs with byte count `size`, in the order in which they occur.
pub open spec fn of_size(pairs: Seq<(CallstackId, usize)>, size: usize) -> Seq<
    (CallstackId, usize),
> {
    pairs.filter(has_size(size))
}

/// Whether a pair's byte count is `size`.
pub open spec fn has_size(size: usize) -> spec_fn((CallstackId, usize)) -> bool {
    |pair: (CallstackId, usize)| pair.1 == size
}

/// Orders pairs by descending byte count.
fn larger_first(a: &(CallstackId, usize), b: &(CallstackId, usize)) -> (order: Ordering)
    ensures
        order == (if a.1 > b.1 {
            Ordering::Less
        } else if a.1 == b.1 {
            Ordering::Equal
        } else {
            Ordering::Greater
        }),
{
    if a.1 > b.1 {
        Ordering::Less
    } else if a.1 == b.1 {
        Ordering::Equal
    } else {
        Ordering::Greater
    }
}

/// `itertools::Itertools::sorted_by` with [`larger_first`]: the same pairs by descending byte
/// count. The sort is stable: pairs with the same byte count keep the order they had.
#[verifier::external_body]
fn sorted_by_larger_first(pairs: Vec<(CallstackId, usize)>) -> (sorted: Vec<(CallstackId, usize)>)
    ensures
        sorted@.to_multiset() == pairs@.to_multiset(),
        forall|p: int, q: int| 0 <= p < q < sorted.len() ==> sorted@[p].1 >= sorted@[q].1,
        forall|size: usize| #[trigger] of_size(sorted@, size) == of_size(pairs@, size),
{
    pairs.into_iter().sorted_by(|a, b| larger_first(a, b)).collect()
}

/// The sum of `weight` over pairs.
spec fn weigh(
    pairs: Seq<(CallstackId, usize)>,
    weight: spec_fn((CallstackId, usize)) -> nat,
) -> nat
    decreases pairs.len(),
{
    if pairs.len() == 0 {
        0
    } else {
        weigh(pairs.drop_last(), weight) + weight(pairs.last())
    }
}

proof fn lemma_weigh_remove(
    pairs: Seq<(CallstackId, usize)>,
    weight: spec_fn((CallstackId, usize)) -> nat,
    k: int,
)
    requires
        0 <= k < pairs.len(),
    ensures
        weigh(pairs, weight) == weigh(pairs.remove(k), weight) + weight(pairs[k]),
    decreases pairs.len(),
{
    if k == pairs.len() - 1 {
        assert(pairs.remove(k) =~= pairs.drop_last());
    } else {
        lemma_weigh_remove(pairs.drop_last(), weight, k);
        assert(pairs.remove(k).drop_last() =~= pairs.drop_last().remove(k));
        assert(pairs.remove(k).last() == pairs.last());
    }
}

proof fn lemma_weigh_permutation(
    a: Seq<(CallstackId, usize)>,
    b: Seq<(CallstackId, usize)>,
    weight: spec_fn((CallstackId, usize)) -> nat,
)
    requires
        a.to_multiset() == b.to_multiset(),
    ensures
        weigh(a, weight) == weigh(b, weight),
    decreases a.len(),
{
    broadcast use vstd::seq_lib::group_to_multiset_ensures;

    assert(a.len() == a.to_multiset().len());
    assert(b.len() == b.to_multiset().len());
    if a.len() > 0 {
        let last = a.last();
        assert(a.contains(last));
        assert(b.to_multiset().count(last) > 0);
        assert(b.contains(last));
        let k = choose|k: int| 0 <= k < b.len() && b[k] == last;
        assert(a.remove(a.len() - 1) =~= a.drop_last());
        assert(a.drop_last().to_multiset() == b.remove(k).to_multiset());
        lemma_weigh_permutation(a.drop_last(), b.remove(k), weight);
        lemma_weigh_remove(b, weight, k);
    }
}

/// The callstacks that hold memory are listed once each, by ascending id.
proof fn lemma_holders(sizes: Seq<usize>)
    requires
        sizes.len() <= 0x1_0000_0000,
    ensures
        forall|k: int|
            0 <= k < holders(sizes).len() ==> {
                &&& (#[trigger] holders(sizes)[k]).0 < sizes.len()
                &&& holders(sizes)[k].1 == sizes[holders(sizes)[k].0 as int]
                &&& holders(sizes)[k].1 > 0
            },
        forall|k: int, l: int|
            0 <= k < l < holders(sizes).len() ==> (#[trigger] holders(sizes)[k]).0 < (
            #[trigger] holders(sizes)[l]).0,
        forall|i: int|
            0 <= i < sizes.len() && #[trigger] sizes[i] > 0 ==> holders(sizes).contains(
                (i as CallstackId, sizes[i]),
            ),
        holders(sizes).len() <= sizes.len(),
    decreases sizes.len(),
{
    if sizes.len() > 0 {
        let rest = sizes.drop_last();
        lemma_holders(rest);
        let n = sizes.len() - 1;
        assert forall|i: int| 0 <= i < sizes.len() && #[trigger] sizes[i] > 0 implies holders(
            sizes,
        ).contains((i as CallstackId, sizes[i])) by {
            if i < n {
                assert(rest[i] > 0);
                let k = choose|k: int|
                    0 <= k < holders(rest).len() && holders(rest)[k] == (
                        i as CallstackId,
                        rest[i],
                    );
                assert(holders(sizes)[k] == (i as CallstackId, sizes[i]));
            } else {
                assert(holders(sizes).last() == (i as CallstackId, sizes[i]));
            }
        }
        assert forall|k: int| 0 <= k < holders(sizes).len() implies {
            &&& (#[trigger] holders(sizes)[k]).0 < sizes.len()
            &&& holders(sizes)[k].1 == sizes[holders(sizes)[k].0 as int]
            &&& holders(sizes)[k].1 > 0
        } by {
            if k < holders(rest).len() {
                assert(holders(sizes)[k] == holders(rest)[k]);
            }
        }
        assert forall|k: int, l: int| 0 <= k < l < holders(sizes).len() implies (
        #[trigger] holders(sizes)[k]).0 < (#[trigger] holders(sizes)[l]).0 by {
            assert(holders(sizes)[k] == holders(rest)[k]);
            if l < holders(rest).len() {
                assert(holders(sizes)[l] == holders(rest)[l]);
            }
        }
    }
}

/// What is counted before a callstack, over the callstacks and over those that hold memory.
proof fn lemma_before_is_weight(sizes: Seq<usize>, i: int, n: nat)
    requires
        sizes.len() <= 0x1_0000_0000,
        0 <= i < sizes.len(),
        sizes[i] > 0,
        n <= sizes.len(),
    ensures
        count_before(sizes, i, n) == weigh(
            holders(sizes.take(n as int)),
            |e: (CallstackId, usize)|
                if pair_before(e, (i as CallstackId, sizes[i])) {
                    1nat
                } else {
                    0
                },
        ),
        bytes_before(sizes, i, n) == weigh(
            holders(sizes.take(n as int)),
            |e: (CallstackId, usize)|
                if pair_before(e, (i as CallstackId, sizes[i])) {
                    e.1 as nat
                } else {
                    0
                },
        ),
    decreases n,
{
    if n > 0 {
        lemma_before_is_weight(sizes, i, (n - 1) as nat);
        let taken = sizes.take(n as int);
        assert(taken.drop_last() =~= sizes.take(n - 1));
        let before = holders(taken.drop_last());
        if taken.last() > 0 {
            assert(holders(taken).drop_last() =~= before);
        }
    }
}

/// In a ranking the pairs before position `p` are exactly those that rank before the pair there.
proof fn lemma_weight_of_prefix(
    ranked: Seq<(CallstackId, usize)>,
    p: int,
    n: int,
    value: spec_fn((CallstackId, usize)) -> nat,
)
    requires
        forall|p: int, q: int|
            0 <= p < q < ranked.len() ==> pair_before(#[trigger] ranked[p], #[trigger] ranked[q]),
        0 <= p < ranked.len(),
        0 <= n <= ranked.len(),
    ensures
        weigh(
            ranked.take(n),
            |e: (CallstackId, usize)|
                if pair_before(e, ranked[p]) {
                    value(e)
                } else {
                    0
                },
        ) == weigh(
            ranked.take(if n <= p {
                n
            } else {
                p
            }),
            value,
        ),
    decreases n,
{
    if n > 0 {
        lemma_weight_of_prefix(ranked, p, n - 1, value);
        assert(ranked.take(n).drop_last() =~= ranked.take(n - 1));
        if n - 1 < p {
            assert(pair_before(ranked[n - 1], ranked[p]));
        } else if n - 1 > p {
            assert(pair_before(ranked[p], ranked[n - 1]));
        }
    }
}

proof fn lemma_bytes_of_first_is_weight(ranked: Seq<(CallstackId, usize)>, n: int)
    requires
        0 <= n <= ranked.len(),
    ensures
        weigh(ranked.take(n), |e: (CallstackId, usize)| e.1 as nat) == bytes_of_first(ranked, n),
        weigh(ranked.take(n), |e: (CallstackId, usize)| 1nat) == n,
    decreases n,
{
    if n > 0 {
        lemma_bytes_of_first_is_weight(ranked, n - 1);
        assert(ranked.take(n).drop_last() =~= ranked.take(n - 1));
    }
}

/// The pair at position `p` of a ranking has `p` callstacks and the bytes of the first `p` pairs
/// before it.
proof fn lemma_position(sizes: Seq<usize>, ranked: Seq<(CallstackId, usize)>, p: int)
    requires
        sizes.len() <= 0x1_0000_0000,
        is_ranking(ranked, sizes),
        0 <= p < ranked.len(),
    ensures
        ranked[p].0 < sizes.len(),
        sizes[ranked[p].0 as int] == ranked[p].1,
        ranked[p].1 > 0,
        count_before(sizes, ranked[p].0 as int, sizes.len()) == p,
        bytes_before(sizes, ranked[p].0 as int, sizes.len()) == bytes_of_first(ranked, p),
        is_useful(sizes, ranked[p].0 as int) <==> position_kept(ranked, p, total(sizes)),
{
    broadcast use vstd::seq_lib::group_to_multiset_ensures;

    lemma_holders(sizes);
    assert(ranked.contains(ranked[p]));
    assert(ranked.to_multiset().count(ranked[p]) > 0);
    assert(holders(sizes).contains(ranked[p]));
    let i = ranked[p].0 as int;
    assert(sizes.take(sizes.len() as int) =~= sizes);
    assert(ranked.take(ranked.len() as int) =~= ranked);
    lemma_before_is_weight(sizes, i, sizes.len());
    let one = |e: (CallstackId, usize)| 1nat;
    let bytes = |e: (CallstackId, usize)| e.1 as nat;
    let one_before = |e: (CallstackId, usize)|
        if pair_before(e, ranked[p]) {
            one(e)
        } else {
            0
        };
    let bytes_before_p = |e: (CallstackId, usize)|
        if pair_before(e, ranked[p]) {
            bytes(e)
        } else {
            0
        };
    lemma_weight_of_prefix(ranked, p, ranked.len() as int, one);
    lemma_weight_of_prefix(ranked, p, ranked.len() as int, bytes);
    lemma_weigh_permutation(ranked, holders(sizes), one_before);
    lemma_weigh_permutation(ranked, holders(sizes), bytes_before_p);
    assert(one_before =~= |e: (CallstackId, usize)|
        if pair_before(e, (i as CallstackId, sizes[i])) {
            1nat
        } else {
            0
        });
    assert(bytes_before_p =~= |e: (CallstackId, usize)|
        if pair_before(e, (i as CallstackId, sizes[i])) {
            e.1 as nat
        } else {
            0
        });
    lemma_bytes_of_first_is_weight(ranked, p);
}

/// Every callstack that holds memory has a position in a ranking.
proof fn lemma_has_position(sizes: Seq<usize>, ranked: Seq<(CallstackId, usize)>, i: int)
    requires
        sizes.len() <= 0x1_0000_0000,
        is_ranking(ranked, sizes),
        0 <= i < sizes.len(),
        sizes[i] > 0,
    ensures
        ranked.contains((i as CallstackId, sizes[i])),
{
    broadcast use vstd::seq_lib::group_to_multiset_ensures;

    lemma_holders(sizes);
    assert(holders(sizes).contains((i as CallstackId, sizes[i])));
    assert(holders(sizes).to_multiset().count((i as CallstackId, sizes[i])) > 0);
}

/// Filtering keeps pairs by ascending id in that order.
proof fn lemma_filter_ascending(
    pairs: Seq<(CallstackId, usize)>,
    keep: spec_fn((CallstackId, usize)) -> bool,
)
    requires
        forall|k: int, l: int|
            0 <= k < l < pairs.len() ==> (#[trigger] pairs[k]).0 < (#[trigger] pairs[l]).0,
    ensures
        forall|k: int|
            0 <= k < pairs.filter(keep).len() ==> pairs.contains(#[trigger] pairs.filter(keep)[k]),
        forall|k: int, l: int|
            0 <= k < l < pairs.filter(keep).len() ==> (#[trigger] pairs.filter(keep)[k]).0 < (
            #[trigger] pairs.filter(keep)[l]).0,
    decreases pairs.len(),
{
    reveal(Seq::filter);
    if pairs.len() > 0 {
        let rest = pairs.drop_last();
        lemma_filter_ascending(rest, keep);
        assert forall|k: int| 0 <= k < pairs.filter(keep).len() implies pairs.contains(
            #[trigger] pairs.filter(keep)[k],
        ) by {
            if k < rest.filter(keep).len() {
                assert(rest.contains(rest.filter(keep)[k]));
                let m = choose|m: int| 0 <= m < rest.len() && rest[m] == rest.filter(keep)[k];
                assert(pairs[m] == pairs.filter(keep)[k]);
            } else {
                assert(pairs[pairs.len() - 1] == pairs.filter(keep)[k]);
            }
        }
        assert forall|k: int, l: int| 0 <= k < l < pairs.filter(keep).len() implies (
        #[trigger] pairs.filter(keep)[k]).0 < (#[trigger] pairs.filter(keep)[l]).0 by {
            assert(pairs.filter(keep)[k] == rest.filter(keep)[k]);
            if l < rest.filter(keep).len() {
                assert(pairs.filter(keep)[l] == rest.filter(keep)[l]);
            } else {
                assert(rest.contains(rest.filter(keep)[k]));
                let m = choose|m: int| 0 <= m < rest.len() && rest[m] == rest.filter(keep)[k];
                assert(pairs[m].0 < pairs[pairs.len() - 1].0);
            }
        }
    }
}

/// Pairs that a filter keeps stand in the order that they have behind the filter.
proof fn lemma_ascending_behind_filter(
    pairs: Seq<(CallstackId, usize)>,
    keep: spec_fn((CallstackId, usize)) -> bool,
    p: int,
    q: int,
)
    requires
        forall|k: int, l: int|
            0 <= k < l < pairs.filter(keep).len() ==> (#[trigger] pairs.filter(keep)[k]).0 < (
            #[trigger] pairs.filter(keep)[l]).0,
        0 <= p < q < pairs.len(),
        keep(pairs[p]),
        keep(pairs[q]),
    ensures
        pairs[p].0 < pairs[q].0,
    decreases pairs.len(),
{
    reveal(Seq::filter);
    let rest = pairs.drop_last();
    let kept = pairs.filter(keep);
    assert forall|k: int, l: int| 0 <= k < l < rest.filter(keep).len() implies (
    #[trigger] rest.filter(keep)[k]).0 < (#[trigger] rest.filter(keep)[l]).0 by {
        assert(kept[k] == rest.filter(keep)[k]);
        assert(kept[l] == rest.filter(keep)[l]);
    }
    if q < pairs.len() - 1 {
        lemma_ascending_behind_filter(rest, keep, p, q);
    } else {
        rest.lemma_filter_contains(keep, p);
        assert(rest[p] == pairs[p]);
        let k = choose|k: int|
            0 <= k < rest.filter(keep).len() && rest.filter(keep)[k] == pairs[p];
        assert(kept[k] == pairs[p]);
        assert(kept[kept.len() - 1] == pairs[q]);
    }
}

/// Sorting the callstacks that hold memory by descending byte count, in a stable way, ranks them.
proof fn lemma_stable_sort_ranks(sizes: Seq<usize>, sorted: Seq<(CallstackId, usize)>)
    requires
        sizes.len() <= 0x1_0000_0000,
        sorted.to_multiset() == holders(sizes).to_multiset(),
        forall|p: int, q: int| 0 <= p < q < sorted.len() ==> sorted[p].1 >= sorted[q].1,
        forall|size: usize| #[trigger] of_size(sorted, size) == of_size(holders(sizes), size),
    ensures
        is_ranking(sorted, sizes),
{
    lemma_holders(sizes);
    assert forall|p: int, q: int| 0 <= p < q < sorted.len() implies pair_before(
        #[trigger] sorted[p],
        #[trigger] sorted[q],
    ) by {
        if sorted[p].1 == sorted[q].1 {
            let size = sorted[p].1;
            let keep = has_size(size);
            assert(of_size(sorted, size) == of_size(holders(sizes), size));
            lemma_filter_ascending(holders(sizes), keep);
            lemma_ascending_behind_filter(sorted, keep, p, q);
        }
    }
}

proof fn lemma_bytes_of_first_monotone(ranked: Seq<(CallstackId, usize)>, m: int, n: int)
    requires
        m <= n,
    ensures
        bytes_of_first(ranked, m) <= bytes_of_first(ranked, n),
    decreases n - m,
{
    if m < n {
        lemma_bytes_of_first_monotone(ranked, m, n - 1);
    }
}

/// Once a position of a ranking is not kept, no later one is.
proof fn lemma_cutoff(ranked: Seq<(CallstackId, usize)>, n: int, total: nat, p: int)
    requires
        is_cutoff(ranked, n, total),
        0 <= p < ranked.len(),
    ensures
        position_kept(ranked, p, total) <==> p < n,
{
    if p >= n {
        lemma_bytes_of_first_monotone(ranked, n, p);
    }
}

/// The bytes of a whole ranking are the bytes of all callstacks.
proof fn lemma_bytes_of_ranking(sizes: Seq<usize>, ranked: Seq<(CallstackId, usize)>)
    requires
        sizes.len() <= 0x1_0000_0000,
        is_ranking(ranked, sizes),
    ensures
        bytes_of_first(ranked, ranked.len() as int) == total(sizes),
{
    let bytes = |e: (CallstackId, usize)| e.1 as nat;
    lemma_bytes_of_first_is_weight(ranked, ranked.len() as int);
    assert(ranked.take(ranked.len() as int) =~= ranked);
    lemma_weigh_permutation(ranked, holders(sizes), bytes);
    lemma_bytes_of_holders(sizes);
}

proof fn lemma_bytes_of_holders(sizes: Seq<usize>)
    ensures
        weigh(holders(sizes), |e: (CallstackId, usize)| e.1 as nat) == total(sizes),
    decreases sizes.len(),
{
    if sizes.len() > 0 {
        lemma_bytes_of_holders(sizes.drop_last());
        if sizes.last() > 0 {
            assert(holders(sizes).drop_last() =~= holders(sizes.drop_last()));
        }
    }
}

/// How many pairs of a ranking to keep: all of them up to the 100th, then more as long as those
/// kept so far hold less than 99% of `total`.
pub fn count_useful(ranked: &Vec<(CallstackId, usize)>, total: usize) -> (taken: usize)
    requires
        bytes_of_first(ranked@, ranked.len() as int) <= usize::MAX,
    ensures
        is_cutoff(ranked@, taken as int, total as nat),
{
    let mut stored: u128 = 0;
    let mut past_threshold: bool = false;
    let mut taken: usize = 0;
    while taken < ranked.len() && !(past_threshold && taken > 99)
        invariant
            taken <= ranked.len(),
            bytes_of_first(ranked@, ranked.len() as int) <= usize::MAX,
            stored == bytes_of_first(ranked@, taken as int),
            taken > 0 ==> past_threshold == (100 * stored >= 99 * total),
            forall|p: int| 0 <= p < taken ==> position_kept(ranked@, p, total as nat),
        decreases ranked.len() - taken,
    {
        proof {
            lemma_bytes_of_first_monotone(ranked@, taken + 1, ranked.len() as int);
            assert(position_kept(ranked@, taken as int, total as nat));
        }
        stored = stored + ranked[taken].1 as u128;
        past_threshold = stored * 100 >= total as u128 * 99;
        taken = taken + 1;
    }
    taken
}

/// The callstacks that hold memory, with what they hold, in order of their ids.
fn callstacks_with_memory(sizes: &Vec<usize>) -> (pairs: Vec<(CallstackId, usize)>)
    requires
        sizes.len() <= 0x1_0000_0000,
    ensures
        pairs@ == holders(sizes@),
{
    let mut pairs: Vec<(CallstackId, usize)> = Vec::new();
    let mut i: usize = 0;
    while i < sizes.len()
        invariant
            i <= sizes.len() <= 0x1_0000_0000,
            pairs@ == holders(sizes@.take(i as int)),
        decreases sizes.len() - i,
    {
        proof {
            assert(sizes@.take(i + 1).drop_last() =~= sizes@.take(i as int));
        }
        if sizes[i] > 0 {
            pairs.push((i as CallstackId, sizes[i]));
        }
        i = i + 1;
    }
    proof {
        assert(sizes@.take(i as int) =~= sizes@);
    }
    pairs
}

/// Filters down to the callstacks that are worth reporting, with the bytes that each holds.
pub fn filter_to_useful_callstacks(allocations: &ImVector<usize>) -> (useful: HashMap<
    CallstackId,
    usize,
    RandomState,
>)
    requires
        slots(*allocations).len() <= 0x1_0000_0000,
        total(slots(*allocations)) <= usize::MAX,
    ensures
        useful@ == useful_callstacks(slots(*allocations)),
{
    broadcast use vstd::std_specs::hash::group_hash_axioms;

    let sizes: Vec<usize> = vector_iter(allocations);
    let total_allocated: usize = total_bytes(allocations);
    let ranked: Vec<(CallstackId, usize)> = sorted_by_larger_first(callstacks_with_memory(&sizes));
    proof {
        lemma_stable_sort_ranks(sizes@, ranked@);
        lemma_bytes_of_ranking(sizes@, ranked@);
    }
    let count: usize = count_useful(&ranked, total_allocated);
    let mut useful: HashMap<CallstackId, usize, RandomState> = new_hashmap();
    let mut k: usize = 0;
    while k < count
        invariant
            k <= count <= ranked.len(),
            sizes.len() <= 0x1_0000_0000,
            is_ranking(ranked@, sizes@),
            forall|id: CallstackId| #[trigger]
                useful@.contains_key(id) ==> 0 <= id < sizes.len() && useful@[id] == sizes@[id as int]
                    && exists|p: int| 0 <= p < k && (#[trigger] ranked@[p]).0 == id,
            forall|p: int| 0 <= p < k ==> useful@.contains_key((#[trigger] ranked@[p]).0),
        decreases count - k,
    {
        broadcast use vstd::std_specs::hash::group_hash_axioms;

        proof {
            lemma_position(sizes@, ranked@, k as int);
        }
        let (id, size) = ranked[k];
        let ghost before = useful@;
        let _ = map_insert(&mut useful, id, size);
        k = k + 1;
        proof {
            assert forall|other: CallstackId| #[trigger] useful@.contains_key(other) implies 0
                <= other < sizes.len() && useful@[other] == sizes@[other as int] && exists|p: int|
                0 <= p < k && (#[trigger] ranked@[p]).0 == other by {
                if other == id {
                    assert(ranked@[k - 1].0 == other);
                } else {
                    assert(before.contains_key(other));
                }
            }
        }
    }
    proof {
        let expected = useful_callstacks(sizes@);
        assert forall|id: CallstackId| useful@.contains_key(id) <==> expected.contains_key(id) by {
            if useful@.contains_key(id) {
                let p = choose|p: int| 0 <= p < k && (#[trigger] ranked@[p]).0 == id;
                lemma_position(sizes@, ranked@, p);
                lemma_cutoff(ranked@, count as int, total_allocated as nat, p);
            }
            if expected.contains_key(id) {
                lemma_has_position(sizes@, ranked@, id as int);
                let p = choose|p: int| 0 <= p < ranked@.len() && ranked@[p] == (id, sizes@[id as int]);
                lemma_position(sizes@, ranked@, p);
                lemma_cutoff(ranked@, count as int, total_allocated as nat, p);
                assert(useful@.contains_key(ranked@[p].0));
            }
        }
        assert(useful@.dom() =~= expected.dom());
        assert forall|id: CallstackId| #[trigger] useful@.contains_key(id) implies useful@[id]
            == expected[id] by {}
        assert(useful@ =~= expected);
    }
    useful
}

/// There is a ranking.
proof fn lemma_ranking_exists(sizes: Seq<usize>) -> (ranked: Seq<(CallstackId, usize)>)
    requires
        sizes.len() <= 0x1_0000_0000,
    ensures
        is_ranking(ranked, sizes),
{
    broadcast use vstd::seq_lib::group_to_multiset_ensures;

    let leq = |a: (CallstackId, usize), b: (CallstackId, usize)| a == b || pair_before(a, b);
    let ranked = holders(sizes).sort_by(leq);
    assert(vstd::relations::total_ordering(leq)) by {
        assert(vstd::relations::reflexive(leq));
        assert(vstd::relations::antisymmetric(leq));
        assert(vstd::relations::transitive(leq));
        assert(vstd::relations::strongly_connected(leq));
    }
    holders(sizes).lemma_sort_by_ensures(leq);
    lemma_holders(sizes);
    assert(holders(sizes).no_duplicates());
    holders(sizes).lemma_multiset_has_no_duplicates();
    ranked.lemma_multiset_has_no_duplicates_conv();
    assert forall|p: int, q: int| 0 <= p < q < ranked.len() implies pair_before(
        #[trigger] ranked[p],
        #[trigger] ranked[q],
    ) by {
        assert(leq(ranked[p], ranked[q]));
        assert(ranked[p] != ranked[q]);
    }
    ranked
}

/// There is a place at which to cut a ranking off.
proof fn lemma_cutoff_exists(ranked: Seq<(CallstackId, usize)>, n: int, total: nat) -> (cut: int)
    requires
        0 <= n <= ranked.len(),
        forall|p: int| 0 <= p < n ==> position_kept(ranked, p, total),
    ensures
        is_cutoff(ranked, cut, total),
    decreases ranked.len() - n,
{
    if n < ranked.len() && position_kept(ranked, n, total) {
        lemma_cutoff_exists(ranked, n + 1, total)
    } else {
        n
    }
}

/// A sum over the kept callstacks, taken over those that hold memory.
proof fn lemma_useful_weight(
    sizes: Seq<usize>,
    n: nat,
    f: spec_fn(int) -> nat,
    value: spec_fn((CallstackId, usize)) -> nat,
)
    requires
        n <= sizes.len() <= 0x1_0000_0000,
        forall|i: int|
            0 <= i < sizes.len() ==> #[trigger] f(i) == (if is_useful(sizes, i) {
                value((i as CallstackId, sizes[i]))
            } else {
                0
            }),
    ensures
        sum_below(f, n) == weigh(
            holders(sizes.take(n as int)),
            |e: (CallstackId, usize)|
                if is_useful(sizes, e.0 as int) {
                    value(e)
                } else {
                    0
                },
        ),
    decreases n,
{
    if n > 0 {
        lemma_useful_weight(sizes, (n - 1) as nat, f, value);
        let taken = sizes.take(n as int);
        assert(taken.drop_last() =~= sizes.take(n - 1));
        assert(f(n - 1) == (if is_useful(sizes, n - 1) {
            value(((n - 1) as CallstackId, sizes[n - 1]))
        } else {
            0
        }));
        if taken.last() > 0 {
            assert(holders(taken).drop_last() =~= holders(taken.drop_last()));
        }
    }
}

/// A sum over the kept callstacks, taken over a ranking, is one over its first pairs.
proof fn lemma_useful_prefix(
    sizes: Seq<usize>,
    ranked: Seq<(CallstackId, usize)>,
    cut: int,
    n: int,
    value: spec_fn((CallstackId, usize)) -> nat,
)
    requires
        sizes.len() <= 0x1_0000_0000,
        is_ranking(ranked, sizes),
        is_cutoff(ranked, cut, total(sizes)),
        0 <= n <= ranked.len(),
    ensures
        weigh(
            ranked.take(n),
            |e: (CallstackId, usize)|
                if is_useful(sizes, e.0 as int) {
                    value(e)
                } else {
                    0
                },
        ) == weigh(
            ranked.take(if n <= cut {
                n
            } else {
                cut
            }),
            value,
        ),
    decreases n,
{
    if n > 0 {
        lemma_useful_prefix(sizes, ranked, cut, n - 1, value);
        assert(ranked.take(n).drop_last() =~= ranked.take(n - 1));
        lemma_position(sizes, ranked, n - 1);
        lemma_cutoff(ranked, cut, total(sizes), n - 1);
    }
}

/// What is kept, in terms of a ranking and of where it is cut off.
proof fn lemma_useful_of_ranking(sizes: Seq<usize>, ranked: Seq<(CallstackId, usize)>, cut: int)
    requires
        sizes.len() <= 0x1_0000_0000,
        is_ranking(ranked, sizes),
        is_cutoff(ranked, cut, total(sizes)),
    ensures
        useful_bytes(sizes) == bytes_of_first(ranked, cut),
        useful_count(sizes) == cut,
{
    let one = |e: (CallstackId, usize)| 1nat;
    let bytes = |e: (CallstackId, usize)| e.1 as nat;
    let useful_one = |e: (CallstackId, usize)|
        if is_useful(sizes, e.0 as int) {
            one(e)
        } else {
            0
        };
    let useful_size = |e: (CallstackId, usize)|
        if is_useful(sizes, e.0 as int) {
            bytes(e)
        } else {
            0
        };
    assert(sizes.take(sizes.len() as int) =~= sizes);
    assert(ranked.take(ranked.len() as int) =~= ranked);
    lemma_useful_weight(
        sizes,
        sizes.len(),
        |i: int|
            if is_useful(sizes, i) {
                1nat
            } else {
                0
            },
        one,
    );
    lemma_useful_weight(
        sizes,
        sizes.len(),
        |i: int|
            if is_useful(sizes, i) {
                sizes[i] as nat
            } else {
                0
            },
        bytes,
    );
    lemma_weigh_permutation(ranked, holders(sizes), useful_one);
    lemma_weigh_permutation(ranked, holders(sizes), useful_size);
    lemma_useful_prefix(sizes, ranked, cut, ranked.len() as int, one);
    lemma_useful_prefix(sizes, ranked, cut, ranked.len() as int, bytes);
    lemma_bytes_of_first_is_weight(ranked, cut);
}

/// The kept callstacks hold at least 99% of all bytes.
pub proof fn law_useful_callstacks_hold_99_percent(sizes: Seq<usize>)
    requires
        sizes.len() <= 0x1_0000_0000,
    ensures
        100 * useful_bytes(sizes) >= 99 * total(sizes),
{
    let ranked = lemma_ranking_exists(sizes);
    let cut = lemma_cutoff_exists(ranked, 0, total(sizes));
    lemma_useful_of_ranking(sizes, ranked, cut);
    lemma_bytes_of_ranking(sizes, ranked);
}

/// When more than 100 callstacks are kept, none of them can be spared: without any one of them
/// the others hold less than 99% of all bytes.
pub proof fn law_beyond_100_no_callstack_can_be_spared(sizes: Seq<usize>, id: int)
    requires
        sizes.len() <= 0x1_0000_0000,
        useful_count(sizes) > 100,
        is_useful(sizes, id),
    ensures
        100 * (useful_bytes(sizes) - sizes[id]) < 99 * total(sizes),
{
    let ranked = lemma_ranking_exists(sizes);
    let cut = lemma_cutoff_exists(ranked, 0, total(sizes));
    lemma_useful_of_ranking(sizes, ranked, cut);
    lemma_has_position(sizes, ranked, id);
    let p = choose|p: int| 0 <= p < ranked.len() && ranked[p] == (id as CallstackId, sizes[id]);
    lemma_position(sizes, ranked, p);
    lemma_cutoff(ranked, cut, total(sizes), p);
    if p < cut - 1 {
        assert(pair_before(ranked[p], ranked[cut - 1]));
    }
    assert(position_kept(ranked, cut - 1, total(sizes)));
}

/// When some callstack that holds memory is dropped, at least 100 are kept.
pub proof fn law_callstacks_are_dropped_only_beyond_100(sizes: Seq<usize>, id: int)
    requires
        sizes.len() <= 0x1_0000_0000,
        0 <= id < sizes.len(),
        sizes[id] > 0,
        !is_useful(sizes, id),
    ensures
        useful_count(sizes) >= 100,
{
    let ranked = lemma_ranking_exists(sizes);
    let cut = lemma_cutoff_exists(ranked, 0, total(sizes));
    lemma_useful_of_ranking(sizes, ranked, cut);
    lemma_has_position(sizes, ranked, id);
    let p = choose|p: int| 0 <= p < ranked.len() && ranked[p] == (id as CallstackId, sizes[id]);
    lemma_position(sizes, ranked, p);
    lemma_cutoff(ranked, cut, total(sizes), p);
}

/// The largest are kept: whatever holds more than a callstack that is kept, or as much and has a
/// smaller id, is kept too.
pub proof fn law_larger_callstacks_are_kept_first(sizes: Seq<usize>, kept: int, larger: int)
    requires
        sizes.len() <= 0x1_0000_0000,
        is_useful(sizes, kept),
        0 <= larger < sizes.len(),
        ranks_before(sizes, larger, kept),
    ensures
        is_useful(sizes, larger),
{
    let ranked = lemma_ranking_exists(sizes);
    let cut = lemma_cutoff_exists(ranked, 0, total(sizes));
    lemma_has_position(sizes, ranked, kept);
    lemma_has_position(sizes, ranked, larger);
    let p = choose|p: int| 0 <= p < ranked.len() && ranked[p] == (kept as CallstackId, sizes[kept]);
    let q = choose|q: int|
        0 <= q < ranked.len() && ranked[q] == (larger as CallstackId, sizes[larger]);
    lemma_position(sizes, ranked, p);
    lemma_position(sizes, ranked, q);
    lemma_cutoff(ranked, cut, total(sizes), p);
    lemma_cutoff(ranked, cut, total(sizes), q);
    if p < q {
        assert(pair_before(ranked[p], ranked[q]));
    }
}

/// What a map gives for an id, or 0 if it has no entry for it.
pub open spec fn listed(map: Map<CallstackId, usize>) -> spec_fn(int) -> nat {
    |i: int|
        if map.contains_key(i as CallstackId) {
            map[i as CallstackId] as nat
        } else {
            0
        }
}

/// The sum of the values of a map, over all ids that there can be.
pub open spec fn bytes_listed(map: Map<CallstackId, usize>) -> nat {
    sum_below(listed(map), 0x1_0000_0000)
}

/// The bytes in the map of kept callstacks are the bytes that these hold.
proof fn lemma_bytes_listed(sizes: Seq<usize>, n: nat)
    requires
        sizes.len() <= 0x1_0000_0000,
        n <= 0x1_0000_0000,
    ensures
        sum_below(listed(useful_callstacks(sizes)), n) == sum_below(
            |i: int|
                if is_useful(sizes, i) {
                    sizes[i] as nat
                } else {
                    0
                },
            if n <= sizes.len() {
                n
            } else {
                sizes.len()
            },
        ),
    decreases n,
{
    if n > 0 {
        lemma_bytes_listed(sizes, (n - 1) as nat);
    }
}

/// The ids below `n` of kept callstacks.
spec fn useful_ids(sizes: Seq<usize>, n: nat) -> Set<CallstackId> {
    Set::new(|id: CallstackId| id < n && is_useful(sizes, id as int))
}

proof fn lemma_useful_ids(sizes: Seq<usize>, n: nat)
    requires
        n <= sizes.len() <= 0x1_0000_0000,
    ensures
        useful_ids(sizes, n).finite(),
        useful_ids(sizes, n).len() == sum_below(
            |i: int|
                if is_useful(sizes, i) {
                    1nat
                } else {
                    0
                },
            n,
        ),
    decreases n,
{
    if n == 0 {
        assert(useful_ids(sizes, n) =~= Set::<CallstackId>::empty());
    } else {
        lemma_useful_ids(sizes, (n - 1) as nat);
        let before = useful_ids(sizes, (n - 1) as nat);
        let id = (n - 1) as CallstackId;
        if is_useful(sizes, n - 1) {
            assert(useful_ids(sizes, n) =~= before.insert(id));
            assert(!before.contains(id));
        } else {
            assert(useful_ids(sizes, n) =~= before);
        }
    }
}

/// The map of kept callstacks has as many entries as callstacks are kept.
proof fn lemma_useful_entries(sizes: Seq<usize>)
    requires
        sizes.len() <= 0x1_0000_0000,
    ensures
        useful_callstacks(sizes).dom().finite(),
        useful_callstacks(sizes).dom().len() == useful_count(sizes),
{
    lemma_useful_ids(sizes, sizes.len());
    assert(useful_callstacks(sizes).dom() =~= useful_ids(sizes, sizes.len()));
}

/// Every callstack in the map is reported with just the bytes that it holds, and holds some.
pub proof fn law_callstacks_are_reported_with_their_bytes(sizes: Seq<usize>, id: CallstackId)
    requires
        useful_callstacks(sizes).contains_key(id),
    ensures
        id < sizes.len(),
        useful_callstacks(sizes)[id] == sizes[id as int],
        sizes[id as int] > 0,
{
}

/// The values in the map make up at least 99% of all bytes, and no more than all of them.
pub proof fn law_reported_bytes_are_99_percent(sizes: Seq<usize>)
    requires
        sizes.len() <= 0x1_0000_0000,
    ensures
        100 * bytes_listed(useful_callstacks(sizes)) >= 99 * total(sizes),
        bytes_listed(useful_callstacks(sizes)) <= total(sizes),
{
    let ranked = lemma_ranking_exists(sizes);
    let cut = lemma_cutoff_exists(ranked, 0, total(sizes));
    lemma_bytes_listed(sizes, 0x1_0000_0000);
    lemma_useful_of_ranking(sizes, ranked, cut);
    lemma_bytes_of_ranking(sizes, ranked);
    lemma_bytes_of_first_monotone(ranked, cut, ranked.len() as int);
    law_useful_callstacks_hold_99_percent(sizes);
}

/// With more than 100 entries in the map, any one of them is needed for the values to make up 99% of
/// all bytes.
pub proof fn law_beyond_100_every_entry_is_needed(sizes: Seq<usize>, id: CallstackId)
    requires
        sizes.len() <= 0x1_0000_0000,
        useful_callstacks(sizes).dom().len() > 100,
        useful_callstacks(sizes).contains_key(id),
    ensures
        100 * (bytes_listed(useful_callstacks(sizes)) - useful_callstacks(sizes)[id]) < 99 * total(
            sizes,
        ),
{
    lemma_useful_entries(sizes);
    lemma_bytes_listed(sizes, 0x1_0000_0000);
    law_beyond_100_no_callstack_can_be_spared(sizes, id as int);
}

/// A callstack that holds memory is left out of the map only if the map has 100 entries or more.
pub proof fn law_entries_are_left_out_only_beyond_100(sizes: Seq<usize>, id: CallstackId)
    requires
        sizes.len() <= 0x1_0000_0000,
        id < sizes.len(),
        sizes[id as int] > 0,
        !useful_callstacks(sizes).contains_key(id),
    ensures
        useful_callstacks(sizes).dom().len() >= 100,
{
    lemma_useful_entries(sizes);
    law_callstacks_are_dropped_only_beyond_100(sizes, id as int);
}

/// With a callstack the map has every callstack that holds more, and every one with a smaller id
/// that holds as much.
pub proof fn law_entries_are_the_largest(
    sizes: Seq<usize>,
    kept: CallstackId,
    larger: CallstackId,
)
    requires
        sizes.len() <= 0x1_0000_0000,
        useful_callstacks(sizes).contains_key(kept),
        larger < sizes.len(),
        sizes[larger as int] > sizes[kept as int] || (sizes[larger as int] == sizes[kept as int]
            && larger < kept),
    ensures
        useful_callstacks(sizes).contains_key(larger),
{
    law_larger_callstacks_are_kept_first(sizes, kept as int, larger as int);
}

/// The bytes of the first pairs add up.
pub proof fn law_bytes_of_pairs_add_up(ranked: Seq<(CallstackId, usize)>, n: int)
    requires
        0 <= n < ranked.len(),
    ensures
        bytes_of_first(ranked, 0) == 0,
        bytes_of_first(ranked, n + 1) == bytes_of_first(ranked, n) + ranked[n].1,
{
}

/// Where a ranking is cut off: not before the 100th pair, unless there are fewer; not before what is
/// kept makes up 99% of the total; and beyond the 100th pair no later than that.
pub proof fn law_rankings_are_cut_off_at_99_percent(
    ranked: Seq<(CallstackId, usize)>,
    n: int,
    total: nat,
)
    requires
        is_cutoff(ranked, n, total),
    ensures
        0 <= n <= ranked.len(),
        n < ranked.len() ==> n >= 100 && 100 * bytes_of_first(ranked, n) >= 99 * total,
        n > 100 ==> 100 * bytes_of_first(ranked, n - 1) < 99 * total,
{
    if n > 100 {
        assert(position_kept(ranked, n - 1, total));
    }
}

} // verus!
