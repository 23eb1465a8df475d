//! Fixed-point arithmetic for scores.
//!
//! Scores and authority mass are `u64` values scaled by [`SCALE`]: the value
//! `SCALE` stands for 1.0. Sums of score sequences are specified with [`sum`].

use vstd::prelude::*;
use vstd::arithmetic::div_mod::{lemma_div_is_ordered, lemma_div_multiples_vanish};
use vstd::arithmetic::mul::lemma_mul_inequality;

verus! {

/// One whole unit in fixed-point representation.
pub const SCALE: u64 = 1_000_000_000;

/// Damping factor of the authority computation (0.85), scaled by [`SCALE`].
pub const DAMPING: u64 = 850_000_000;

/// Sum of a sequence of `u64` values, as an unbounded integer.
pub open spec fn sum(s: Seq<u64>) -> int
    decreases s.len(),
{
    if s.len() == 0 {
        0
    } else {
        sum(s.drop_last()) + s.last()
    }
}

/// The sum of a sequence of unsigned values is non-negative.
pub proof fn lemma_sum_nonneg(s: Seq<u64>)
    ensures
        sum(s) >= 0,
    decreases s.len(),
{
    if s.len() > 0 {
        lemma_sum_nonneg(s.drop_last());
    }
}

/// Appending an element adds its value to the sum.
pub proof fn lemma_sum_push(s: Seq<u64>, v: u64)
    ensures
        sum(s.push(v)) == sum(s) + v,
{
    assert(s.push(v).drop_last() =~= s);
}

/// Each element of a sequence of unsigned values is at most the sum.
pub proof fn lemma_sum_elem_le(s: Seq<u64>, i: int)
    requires
        0 <= i < s.len(),
    ensures
        s[i] <= sum(s),
    decreases s.len(),
{
    lemma_sum_nonneg(s.drop_last());
    if i < s.len() - 1 {
        lemma_sum_elem_le(s.drop_last(), i);
    }
}

/// Overwriting one element changes the sum by the difference.
pub proof fn lemma_sum_update(s: Seq<u64>, i: int, v: u64)
    requires
        0 <= i < s.len(),
    ensures
        sum(s.update(i, v)) == sum(s) - s[i] + v,
    decreases s.len(),
{
    if i == s.len() - 1 {
        assert(s.update(i, v).drop_last() =~= s.drop_last());
    } else {
        assert(s.update(i, v).drop_last() =~= s.drop_last().update(i, v));
        lemma_sum_update(s.drop_last(), i, v);
    }
}

/// A prefix of a sequence of unsigned values sums to at most the whole.
pub proof fn lemma_sum_take_le(s: Seq<u64>, i: int)
    requires
        0 <= i <= s.len(),
    ensures
        sum(s.take(i)) <= sum(s),
    decreases s.len() - i,
{
    if i == s.len() {
        assert(s.take(i) =~= s);
    } else {
        lemma_sum_take_succ(s, i);
        lemma_sum_take_le(s, i + 1);
    }
}

/// The sum of the first `i + 1` elements extends the sum of the first `i`.
pub proof fn lemma_sum_take_succ(s: Seq<u64>, i: int)
    requires
        0 <= i < s.len(),
    ensures
        sum(s.take(i + 1)) == sum(s.take(i)) + s[i],
{
    assert(s.take(i + 1).drop_last() =~= s.take(i));
}

/// Computes `a * b / c` without overflow, for `a <= c`.
///
/// Because `a <= c`, the result is at most `b`.
pub fn mul_div_scaled(a: u64, b: u64, c: u64) -> (r: u64)
    requires
        c > 0,
        a <= c,
    ensures
        r == a * b / (c as int),
        r <= b,
{
    proof {
        lemma_mul_inequality(a as int, c as int, b as int);
        lemma_div_is_ordered(a * b, (c * b) as int, c as int);
        lemma_div_multiples_vanish(b as int, c as int);
        assert(c * b == b * c) by (nonlinear_arith);
        assert(a * b / (c as int) <= b);
        assert((a as int) * (b as int) < 0x1_0000_0000_0000_0000 * 0x1_0000_0000_0000_0000)
            by (nonlinear_arith)
            requires a < 0x1_0000_0000_0000_0000, b < 0x1_0000_0000_0000_0000;
    }
    let prod: u128 = (a as u128) * (b as u128);
    let q: u128 = prod / (c as u128);
    q as u64
}

/// Computes `a * b / c` without overflow, for products within `u64` range.
pub fn mul_div_small(a: u64, b: u64, c: u64) -> (r: u64)
    requires
        c > 0,
        a * b <= u64::MAX,
    ensures
        r == a * b / (c as int),
        r <= a * b,
{
    proof {
        assert(a * b <= a * b * c && a * b * c == c * (a * b)) by (nonlinear_arith)
            requires c >= 1, a * b >= 0;
        lemma_div_is_ordered(a * b, (a * b * c) as int, c as int);
        lemma_div_multiples_vanish(a * b, c as int);
        assert((a as int) * (b as int) < 0x1_0000_0000_0000_0000 * 0x1_0000_0000_0000_0000)
            by (nonlinear_arith)
            requires a < 0x1_0000_0000_0000_0000, b < 0x1_0000_0000_0000_0000;
    }
    let prod: u128 = (a as u128) * (b as u128);
    let q: u128 = prod / (c as u128);
    q as u64
}

/// Saturating addition on `u64`, pinned exactly by its specification.
pub open spec fn sat_add_spec(a: u64, b: u64) -> u64 {
    if a + b <= u64::MAX {
        (a + b) as u64
    } else {
        u64::MAX
    }
}

/// Adds two scores, clamping at `u64::MAX` instead of overflowing.
pub fn sat_add(a: u64, b: u64) -> (r: u64)
    ensures
        r == sat_add_spec(a, b),
{
    if a <= u64::MAX - b {
        a + b
    } else {
        u64::MAX
    }
}

} // verus!
