//! Sums of 32-bit integers.
//!
//! Totals are kept in 32 bits and wrap around on overflow, as two's
//! complement arithmetic does. The contracts state them as the exact sum over
//! the integers, reduced to 32 bits by [`wrap`].
use vstd::arithmetic::div_mod::lemma_mul_mod_noop_general;
use vstd::prelude::*;
use vstd::seq_lib::{to_multiset_build, to_multiset_contains, to_multiset_len, to_multiset_remove};

verus! {

/// The exact sum of `values`.
pub open spec fn sum(values: Seq<i32>) -> int
    decreases values.len(),
{
    if values.len() == 0 {
        0
    } else {
        sum(values.drop_last()) + values.last()
    }
}

/// The 32-bit signed integer that equals `x` modulo 2^32.
pub open spec fn wrap(x: int) -> i32 {
    let low = x % 0x1_0000_0000;
    if low >= 0x8000_0000 {
        (low - 0x1_0000_0000) as i32
    } else {
        low as i32
    }
}

/// A value that fits in 32 bits is left as it is.
pub proof fn lemma_wrap_in_range(x: int)
    requires
        i32::MIN <= x <= i32::MAX,
    ensures
        wrap(x) == x,
{
}

/// Adding to a wrapped total and wrapping again is wrapping the exact sum.
pub proof fn lemma_wrap_add(x: int, y: i32)
    ensures
        wrap(x).wrapping_add(y) == wrap(x + y),
{
}

/// Multiplying two wrapped totals with wraparound is wrapping the exact
/// product.
pub proof fn lemma_wrap_mul(x: int, y: int)
    ensures
        wrap(x).wrapping_mul(wrap(y)) == wrap(x * y),
{
    let m = 0x1_0000_0000int;
    let wx = wrap(x) as int;
    let wy = wrap(y) as int;
    assert(wx % m == x % m);
    assert(wy % m == y % m);
    lemma_mul_mod_noop_general(wx, wy, m);
    lemma_mul_mod_noop_general(x, y, m);
    assert((wx * wy) % m == (x * y) % m);
}

/// The sum of a sequence with one more value at its end.
pub proof fn lemma_sum_push(values: Seq<i32>, last: i32)
    ensures
        sum(values.push(last)) == sum(values) + last,
{
    assert(values.push(last).drop_last() == values);
}

/// The sum of a sequence is the sum of the sequence without one of its
/// values, plus that value.
pub proof fn lemma_sum_remove(values: Seq<i32>, at: int)
    requires
        0 <= at < values.len(),
    ensures
        sum(values) == sum(values.remove(at)) + values[at],
    decreases values.len(),
{
    if at == values.len() - 1 {
        assert(values.remove(at) == values.drop_last());
    } else {
        lemma_sum_remove(values.drop_last(), at);
        assert(values.remove(at).drop_last() == values.drop_last().remove(at));
    }
}

/// The sum of two sequences joined is the sum of their sums.
pub proof fn lemma_sum_concat(left: Seq<i32>, right: Seq<i32>)
    ensures
        sum(left + right) == sum(left) + sum(right),
    decreases right.len(),
{
    if right.len() == 0 {
        assert(left + right == left);
    } else {
        lemma_sum_concat(left, right.drop_last());
        assert((left + right).drop_last() == left + right.drop_last());
    }
}

/// Joining two sequences in either order gives the same sum.
pub proof fn lemma_sum_commutes(left: Seq<i32>, right: Seq<i32>)
    ensures
        sum(left + right) == sum(right + left),
{
    lemma_sum_concat(left, right);
    lemma_sum_concat(right, left);
}

/// The total does not depend on the order of the values: two sequences that
/// hold the same values, each as often as the other, have the same sum, and
/// so the same total in 32 bits.
pub proof fn lemma_sum_order_independent(first: Seq<i32>, second: Seq<i32>)
    requires
        first.to_multiset() == second.to_multiset(),
    ensures
        sum(first) == sum(second),
        wrap(sum(first)) == wrap(sum(second)),
    decreases first.len(),
{
    to_multiset_len(first);
    to_multiset_len(second);
    if first.len() > 0 {
        let last = first.last();
        let rest = first.drop_last();
        assert(rest.push(last) == first);
        to_multiset_build(rest, last);
        to_multiset_contains(second, last);
        let at = choose|at: int| 0 <= at < second.len() && second[at] == last;
        to_multiset_remove(second, at);
        assert(rest.to_multiset() =~= second.remove(at).to_multiset());
        lemma_sum_order_independent(rest, second.remove(at));
        lemma_sum_remove(second, at);
    }
}

/// Adds up `values` in 32 bits, wrapping around on overflow.
pub fn wrapping_sum(values: &[i32]) -> (total: i32)
    ensures
        total == wrap(sum(values@)),
{
    let mut total: i32 = 0;
    let mut index: usize = 0;
    while index < values.len()
        invariant
            index <= values.len(),
            total == wrap(sum(values@.take(index as int))),
        decreases values.len() - index,
    {
        proof {
            let done = values@.take(index as int);
            lemma_sum_push(done, values[index as int]);
            assert(done.push(values[index as int]) == values@.take(index + 1));
            lemma_wrap_add(sum(done), values[index as int]);
        }
        total = total.wrapping_add(values[index]);
        index += 1;
    }
    proof {
        assert(values@.take(index as int) == values@);
    }
    total
}

} // verus!
