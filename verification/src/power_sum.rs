//! The digit power sum: each decimal digit raised to its position, counted
//! from one at the most significant digit. A number is a Disarium number when
//! it equals its own digit power sum.

use crate::decimal::{
    decimal_digits, is_digits, is_first_non_zero, lemma_decimal_digits_of_value,
    lemma_decimal_digits_shape, lemma_num_digits_bounds, lemma_num_digits_of_significant,
    lemma_pow10_step, lemma_value_bound, lemma_value_of_decimal_digits,
    lemma_value_skips_zeros, num_digits, pow10, seq_value,
};
use vstd::arithmetic::div_mod::lemma_mod_breakdown;
use vstd::arithmetic::power::{lemma_pow_positive, pow};
use vstd::prelude::*;

verus! {

/// Digit `d` raised to the power `e`.
pub open spec fn digit_power(d: nat, e: nat) -> nat {
    pow(d as int, e) as nat
}

/// The digit power sum of `n`: the sum of its decimal digits, the most
/// significant raised to the power one, the next to the power two, and so on.
pub open spec fn power_sum(n: nat) -> nat
    decreases n,
{
    if n == 0 {
        0
    } else {
        power_sum(n / 10) + digit_power(n % 10, num_digits(n))
    }
}

/// The digit power sum of a digit sequence read from the left: the entry at
/// index `i` is raised to the power `i + 1`.
pub open spec fn seq_power_sum(s: Seq<u8>) -> nat
    decreases s.len(),
{
    if s.len() == 0 {
        0
    } else {
        seq_power_sum(s.drop_last()) + digit_power(s.last() as nat, s.len())
    }
}

/// `n` equals its own digit power sum.
pub open spec fn is_disarium(n: nat) -> bool {
    power_sum(n) == n
}

/// A sequence of `k` nines.
pub open spec fn nines(k: nat) -> Seq<u8> {
    Seq::new(k, |i: int| 9u8)
}

/// `a` is nowhere above `b`, index by index.
pub open spec fn pointwise_le(a: Seq<u8>, b: Seq<u8>) -> bool {
    &&& a.len() == b.len()
    &&& forall|i: int| 0 <= i < a.len() ==> #[trigger] a[i] <= b[i]
}

/// A power of a natural number is not negative.
proof fn lemma_pow_not_negative(d: nat, e: nat)
    ensures
        pow(d as int, e) >= 0,
    decreases e,
{
    reveal(pow);
    if e > 0 {
        lemma_pow_not_negative(d, (e - 1) as nat);
        let p = pow(d as int, (e - 1) as nat);
        assert(d * p >= 0) by (nonlinear_arith)
            requires
                d >= 0,
                p >= 0,
        ;
    }
}

/// How the powers of a digit unfold.
pub proof fn lemma_digit_power_step(d: nat, e: nat)
    ensures
        digit_power(d, 0) == 1,
        digit_power(d, e + 1) == d * digit_power(d, e),
{
    reveal(pow);
    lemma_pow_not_negative(d, e);
    lemma_pow_not_negative(d, e + 1);
    assert(pow(d as int, 0) == 1);
    assert(pow(d as int, e + 1) == d * pow(d as int, e));
}

/// A larger base gives a larger power.
pub proof fn lemma_digit_power_monotone(a: nat, b: nat, e: nat)
    requires
        a <= b,
    ensures
        digit_power(a, e) <= digit_power(b, e),
    decreases e,
{
    if e == 0 {
        lemma_digit_power_step(a, 0);
        lemma_digit_power_step(b, 0);
    } else {
        let e0 = (e - 1) as nat;
        lemma_digit_power_monotone(a, b, e0);
        lemma_digit_power_step(a, e0);
        lemma_digit_power_step(b, e0);
        let pa = digit_power(a, e0);
        let pb = digit_power(b, e0);
        assert(a * pa <= b * pb) by (nonlinear_arith)
            requires
                a <= b,
                pa <= pb,
        ;
    }
}

/// A power of a decimal digit stays below the power of ten.
pub proof fn lemma_digit_power_bound(d: nat, e: nat)
    requires
        d <= 9,
    ensures
        digit_power(d, e) <= digit_power(9, e),
        digit_power(9, e) <= pow10(e),
{
    lemma_digit_power_monotone(d, 9, e);
    lemma_digit_power_monotone(9, 10, e);
    lemma_pow_positive(10, e);
}

/// The digit power sum of a sequence without leading zero is the digit power
/// sum of the number that it denotes.
pub proof fn lemma_power_sum_of_significant(s: Seq<u8>)
    requires
        is_digits(s),
        s.len() > 0 ==> s[0] != 0,
    ensures
        power_sum(seq_value(s)) == seq_power_sum(s),
    decreases s.len(),
{
    if s.len() > 0 {
        let head = s.drop_last();
        lemma_num_digits_of_significant(s);
        assert(s.last() <= 9);
        if head.len() == 0 {
            assert(s.last() == s[0]);
        }
        lemma_power_sum_of_significant(head);
        assert(seq_value(s) / 10 == seq_value(head));
        assert(seq_value(s) % 10 == s.last());
    }
}

/// Leading zeros carry no position: the digit power sum of the number is
/// that of the digits from the first one that is not zero.
pub proof fn lemma_power_sum_of_digits(s: Seq<u8>, i: int)
    requires
        is_digits(s),
        is_first_non_zero(s, i),
    ensures
        power_sum(seq_value(s)) == seq_power_sum(s.subrange(i, s.len() as int)),
{
    lemma_value_skips_zeros(s, i);
    lemma_power_sum_of_significant(s.subrange(i, s.len() as int));
}

/// Raising any digit raises the digit power sum.
pub proof fn lemma_seq_power_sum_monotone(a: Seq<u8>, b: Seq<u8>)
    requires
        pointwise_le(a, b),
    ensures
        seq_power_sum(a) <= seq_power_sum(b),
    decreases a.len(),
{
    if a.len() > 0 {
        assert(pointwise_le(a.drop_last(), b.drop_last()));
        lemma_seq_power_sum_monotone(a.drop_last(), b.drop_last());
        assert(a.last() <= b.last());
        lemma_digit_power_monotone(a.last() as nat, b.last() as nat, a.len());
    }
}

/// Even `k` nines have a digit power sum below `10^k`.
pub proof fn lemma_power_sum_of_nines(k: nat)
    ensures
        seq_power_sum(nines(k)) < pow10(k),
    decreases k,
{
    if k == 0 {
        lemma_pow10_step(0);
    } else {
        let k0 = (k - 1) as nat;
        lemma_power_sum_of_nines(k0);
        assert(nines(k).drop_last() =~= nines(k0));
        lemma_pow10_step(k0);
        lemma_digit_power_step(9, k0);
        lemma_digit_power_bound(9, k0);
    }
}

/// The digit power sum of a digit sequence is below the power of ten of its
/// length.
pub proof fn lemma_seq_power_sum_bound(s: Seq<u8>)
    requires
        is_digits(s),
    ensures
        seq_power_sum(s) < pow10(s.len()),
{
    assert(pointwise_le(s, nines(s.len())));
    lemma_seq_power_sum_monotone(s, nines(s.len()));
    lemma_power_sum_of_nines(s.len());
}

/// The decimal digits of `n` at its own digit count: they denote `n` and
/// start with a digit other than zero.
pub proof fn lemma_significant_digits(n: nat)
    ensures
        decimal_digits(n, num_digits(n)).len() == num_digits(n),
        is_digits(decimal_digits(n, num_digits(n))),
        seq_value(decimal_digits(n, num_digits(n))) == n,
        n > 0 ==> decimal_digits(n, num_digits(n))[0] != 0,
        power_sum(n) == seq_power_sum(decimal_digits(n, num_digits(n))),
{
    let k = num_digits(n);
    let s = decimal_digits(n, k);
    lemma_decimal_digits_shape(n, k);
    lemma_num_digits_bounds(n);
    lemma_value_of_decimal_digits(n, k);
    if n > 0 {
        if s[0] == 0 {
            let tail = s.subrange(1, k as int);
            lemma_value_skips_zeros(s, 1);
            lemma_value_bound(tail);
        }
    }
    lemma_power_sum_of_significant(s);
}

/// The digit power sum of a number stays below the next power of ten, so it
/// never has more digits than the number itself.
pub proof fn lemma_power_sum_bound(n: nat)
    ensures
        power_sum(n) < pow10(num_digits(n)),
{
    lemma_significant_digits(n);
    lemma_seq_power_sum_bound(decimal_digits(n, num_digits(n)));
}

/// The digit power sum of a number lies between those of any two patterns
/// that enclose its digits index by index.
pub proof fn lemma_power_sum_between(n: nat, low: Seq<u8>, high: Seq<u8>)
    requires
        pointwise_le(low, decimal_digits(n, num_digits(n))),
        pointwise_le(decimal_digits(n, num_digits(n)), high),
    ensures
        seq_power_sum(low) <= power_sum(n) <= seq_power_sum(high),
{
    lemma_significant_digits(n);
    lemma_seq_power_sum_monotone(low, decimal_digits(n, num_digits(n)));
    lemma_seq_power_sum_monotone(decimal_digits(n, num_digits(n)), high);
}

/// The value of the decimal digits of `n` at any width is `n` cut to that
/// many digits.
pub proof fn lemma_value_of_low_digits(n: nat, width: nat)
    ensures
        seq_value(decimal_digits(n, width)) == n % pow10(width),
    decreases width,
{
    if width == 0 {
        lemma_pow10_step(0);
    } else {
        let w = (width - 1) as nat;
        lemma_pow10_step(w);
        lemma_value_of_low_digits(n / 10, w);
        let s = decimal_digits(n, width);
        assert(s.drop_last() =~= decimal_digits(n / 10, w));
        lemma_mod_breakdown(n as int, 10, pow10(w) as int);
    }
}

/// The last `low` entries of the decimal digits of `n` are its decimal
/// digits at width `low`.
pub proof fn lemma_low_digits(n: nat, width: nat, low: nat)
    requires
        low <= width,
    ensures
        decimal_digits(n, width).subrange(width - low, width as int) == decimal_digits(n, low),
    decreases low,
{
    lemma_decimal_digits_shape(n, width);
    if low == 0 {
        assert(decimal_digits(n, width).subrange(width - low, width as int) =~= decimal_digits(
            n,
            low,
        ));
    } else {
        let w = (width - 1) as nat;
        let l = (low - 1) as nat;
        lemma_low_digits(n / 10, w, l);
        lemma_decimal_digits_shape(n / 10, w);
        lemma_decimal_digits_shape(n / 10, l);
        let whole = decimal_digits(n, width);
        let part = whole.subrange(width - low, width as int);
        assert(part.drop_last() =~= decimal_digits(n / 10, w).subrange(w - l, w as int));
        assert(part =~= decimal_digits(n, low));
    }
}

/// The digits of `n` that stand at the last `tail.len()` places are `tail`
/// exactly when `n` leaves the value of `tail` on division by that power of
/// ten.
pub proof fn lemma_low_digits_of_residue(n: nat, width: nat, tail: Seq<u8>)
    requires
        is_digits(tail),
        tail.len() <= width,
        n % pow10(tail.len()) == seq_value(tail),
    ensures
        decimal_digits(n, width).subrange(width - tail.len(), width as int) == tail,
{
    let low = tail.len();
    lemma_low_digits(n, width, low);
    lemma_value_of_low_digits(n, low);
    lemma_decimal_digits_shape(n, low);
    lemma_decimal_digits_of_value(tail);
    lemma_decimal_digits_of_value(decimal_digits(n, low));
}

} // verus!
