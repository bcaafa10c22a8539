//! Bytes per callstack: what an `im::Vector<usize>` of byte counts holds and how it is updated.
//!
//! The slot at index `i` belongs to the callstack with id `i`. Taking a copy of such a vector
//! shares its memory with the original, which is what makes it cheap to remember a peak.

use im::Vector as ImVector;
use vstd::prelude::*;

verus! {

/// `im::Vector`. What a vector of byte counts holds is given by [`slots`].
#[verifier::external_type_specification]
#[verifier::external_body]
#[verifier::reject_recursive_types(A)]
pub struct ExImVector<A>(im::Vector<A>);

/// The elements of an `im::Vector<usize>`, first to last.
pub uninterp spec fn slots(vector: im::Vector<usize>) -> Seq<usize>;

/// `im::Vector::new`: a vector without elements.
#[verifier::external_body]
pub(crate) fn vector_new() -> (vector: ImVector<usize>)
    ensures
        slots(vector) == Seq::<usize>::empty(),
{
    ImVector::new()
}

/// `im::Vector::push_back`: one more element behind the others, which stay as they are.
#[verifier::external_body]
pub(crate) fn vector_push_back(vector: &mut ImVector<usize>, value: usize)
    requires
        slots(*old(vector)).len() < usize::MAX,
    ensures
        slots(*final(vector)) == slots(*old(vector)).push(value),
{
    vector.push_back(value)
}

/// `im::Vector::len`: the number of elements.
#[verifier::external_body]
pub(crate) fn vector_len(vector: &ImVector<usize>) -> (len: usize)
    ensures
        len == slots(*vector).len(),
{
    vector.len()
}

/// `im::Vector`'s `Index`: the element at an index that is in bounds.
#[verifier::external_body]
pub(crate) fn vector_index(vector: &ImVector<usize>, index: usize) -> (value: usize)
    requires
        index < slots(*vector).len(),
    ensures
        value == slots(*vector)[index as int],
{
    vector[index]
}

/// `im::Vector`'s `IndexMut`: writes the element at an index that is in bounds and leaves the
/// others as they are.
#[verifier::external_body]
pub(crate) fn vector_index_mut(vector: &mut ImVector<usize>, index: usize, value: usize)
    requires
        index < slots(*old(vector)).len(),
    ensures
        slots(*final(vector)) == slots(*old(vector)).update(index as int, value),
{
    vector[index] = value
}

/// `im::Vector`'s `Clone::clone_from`: afterwards the first vector holds what the second holds.
#[verifier::external_body]
pub(crate) fn vector_clone_from(vector: &mut ImVector<usize>, source: &ImVector<usize>)
    ensures
        slots(*final(vector)) == slots(*source),
{
    vector.clone_from(source)
}

/// `im::Vector::clear`: afterwards the vector has no elements.
#[verifier::external_body]
pub(crate) fn vector_clear(vector: &mut ImVector<usize>)
    ensures
        slots(*final(vector)) == Seq::<usize>::empty(),
{
    vector.clear()
}

/// `im::Vector::iter`: the elements, first to last, as a `Vec`.
#[verifier::external_body]
pub(crate) fn vector_iter(vector: &ImVector<usize>) -> (values: Vec<usize>)
    ensures
        values@ == slots(*vector),
{
    vector.iter().copied().collect()
}

/// The sum of a sequence of byte counts.
pub open spec fn total(counts: Seq<usize>) -> nat
    decreases counts.len(),
{
    if counts.len() == 0 {
        0
    } else {
        total(counts.drop_last()) + counts.last() as nat
    }
}

/// The sum of `f(0)` to `f(n - 1)`.
pub open spec fn sum_below(f: spec_fn(int) -> nat, n: nat) -> nat
    decreases n,
{
    if n == 0 {
        0
    } else {
        sum_below(f, (n - 1) as nat) + f(n - 1)
    }
}

pub proof fn lemma_total_is_sum_below(counts: Seq<usize>, f: spec_fn(int) -> nat)
    requires
        forall|i: int| 0 <= i < counts.len() ==> #[trigger] f(i) == counts[i],
    ensures
        total(counts) == sum_below(f, counts.len()),
    decreases counts.len(),
{
    if counts.len() > 0 {
        assert forall|i: int| 0 <= i < counts.drop_last().len() implies #[trigger] f(i)
            == counts.drop_last()[i] by {}
        lemma_total_is_sum_below(counts.drop_last(), f);
    }
}

pub proof fn lemma_sum_below_monotone(f: spec_fn(int) -> nat, g: spec_fn(int) -> nat, n: nat)
    requires
        forall|i: int| 0 <= i < n ==> #[trigger] f(i) <= #[trigger] g(i),
    ensures
        sum_below(f, n) <= sum_below(g, n),
    decreases n,
{
    if n > 0 {
        lemma_sum_below_monotone(f, g, (n - 1) as nat);
        assert(f(n - 1) <= g(n - 1));
    }
}

/// Changing one summand changes the sum by as much.
pub proof fn lemma_sum_below_bump(
    f: spec_fn(int) -> nat,
    g: spec_fn(int) -> nat,
    n: nat,
    k: int,
    more: nat,
)
    requires
        forall|i: int| 0 <= i < n && i != k ==> #[trigger] g(i) == f(i),
        0 <= k < n ==> g(k) == f(k) + more,
    ensures
        sum_below(g, n) == sum_below(f, n) + (if 0 <= k < n {
            more
        } else {
            0
        }),
    decreases n,
{
    if n > 0 {
        lemma_sum_below_bump(f, g, (n - 1) as nat, k, more);
        if n - 1 != k {
            assert(g(n - 1) == f(n - 1));
        }
    }
}

pub proof fn lemma_sum_below_zeros(f: spec_fn(int) -> nat, n: nat)
    requires
        forall|i: int| 0 <= i < n ==> #[trigger] f(i) == 0,
    ensures
        sum_below(f, n) == 0,
    decreases n,
{
    if n > 0 {
        lemma_sum_below_zeros(f, (n - 1) as nat);
        assert(f(n - 1) == 0);
    }
}

/// The sums of two series make up the sum of the series of sums.
pub proof fn lemma_sum_below_add(
    f: spec_fn(int) -> nat,
    g: spec_fn(int) -> nat,
    h: spec_fn(int) -> nat,
    n: nat,
)
    requires
        forall|i: int| 0 <= i < n ==> #[trigger] h(i) == f(i) + g(i),
    ensures
        sum_below(h, n) == sum_below(f, n) + sum_below(g, n),
    decreases n,
{
    if n > 0 {
        lemma_sum_below_add(f, g, h, (n - 1) as nat);
        assert(h(n - 1) == f(n - 1) + g(n - 1));
    }
}

/// Changing one count changes the sum by as much.
pub proof fn lemma_total_update(counts: Seq<usize>, i: int, value: usize)
    requires
        0 <= i < counts.len(),
    ensures
        total(counts.update(i, value)) == total(counts) - counts[i] + value,
        counts[i] <= total(counts),
    decreases counts.len(),
{
    let updated = counts.update(i, value);
    if i == counts.len() - 1 {
        assert(updated.drop_last() =~= counts.drop_last());
    } else {
        assert(updated.drop_last() =~= counts.drop_last().update(i, value));
        lemma_total_update(counts.drop_last(), i, value);
    }
}

pub proof fn lemma_total_push(counts: Seq<usize>, value: usize)
    ensures
        total(counts.push(value)) == total(counts) + value,
{
    assert(counts.push(value).drop_last() =~= counts);
}

pub proof fn lemma_total_zeros(counts: Seq<usize>)
    requires
        forall|i: int| 0 <= i < counts.len() ==> counts[i] == 0,
    ensures
        total(counts) == 0,
    decreases counts.len(),
{
    if counts.len() > 0 {
        lemma_total_zeros(counts.drop_last());
    }
}

/// The sum of the first counts is no more than the sum of all of them.
pub proof fn lemma_total_take(counts: Seq<usize>, n: int)
    requires
        0 <= n <= counts.len(),
    ensures
        total(counts.take(n)) <= total(counts),
    decreases counts.len() - n,
{
    if n == counts.len() {
        assert(counts.take(n) =~= counts);
    } else {
        lemma_total_take(counts, n + 1);
        assert(counts.take(n + 1).drop_last() =~= counts.take(n));
    }
}

/// The sum of a vector of byte counts.
pub fn total_bytes(vector: &ImVector<usize>) -> (sum: usize)
    requires
        total(slots(*vector)) <= usize::MAX,
    ensures
        sum == total(slots(*vector)),
{
    let values: Vec<usize> = vector_iter(vector);
    let mut sum: usize = 0;
    let mut i: usize = 0;
    proof {
        assert(values@.take(0) =~= Seq::<usize>::empty());
    }
    while i < values.len()
        invariant
            i <= values.len(),
            sum == total(values@.take(i as int)),
            total(values@) <= usize::MAX,
        decreases values.len() - i,
    {
        proof {
            assert(values@.take(i + 1).drop_last() =~= values@.take(i as int));
            lemma_total_take(values@, i + 1);
        }
        sum = sum + values[i];
        i = i + 1;
    }
    proof {
        assert(values@.take(i as int) =~= values@);
    }
    sum
}

/// A sum of byte counts is 0 without counts, and grows with each count by that count.
pub proof fn law_totals_add_up(counts: Seq<usize>, value: usize)
    ensures
        total(Seq::<usize>::empty()) == 0,
        total(counts.push(value)) == total(counts) + value,
{
    lemma_total_push(counts, value);
}

/// A sum over a series is 0 without summands, and grows with each summand by that summand.
pub proof fn law_sums_add_up(f: spec_fn(int) -> nat, n: nat)
    ensures
        sum_below(f, 0) == 0,
        sum_below(f, n + 1) == sum_below(f, n) + f(n as int),
{
}

} // verus!
