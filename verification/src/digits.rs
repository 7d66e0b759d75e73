//! A number held as a fixed-width array of decimal digits, most significant
//! first, that can be stepped by a power of ten in place.

use crate::decimal::{
    decimal_digits, drop_low_digits, is_digits, is_first_non_zero, lemma_decimal_digits_of_value,
    lemma_decimal_digits_shape, lemma_div_mod_of_parts, lemma_div_pow10_bound,
    lemma_num_digits_of_value,
    lemma_pow10_monotone, lemma_pow10_step, lemma_value_bound, lemma_value_concat,
    lemma_value_of_decimal_digits, lemma_value_update, lemma_value_zeros, num_digits, pow10,
    seq_value,
};
use crate::itoa::int_to_digits;
use crate::power_sum::{lemma_power_sum_of_digits, power_sum};
use crate::table::{calc_exp, MAX_DIGITS};
use crate::{Digit, Number};
use vstd::prelude::*;
use vstd::slice::slice_subrange;

verus! {

/// A number as `NUM_DIGITS` decimal digits, padded with zeros on the left,
/// together with the index at which its leading zeros end.
#[derive(Debug, Clone)]
pub struct Digits<const NUM_DIGITS: usize> {
    digits: [Digit; NUM_DIGITS],
    first_non_zero_index: usize,
}

impl<const NUM_DIGITS: usize> Digits<NUM_DIGITS> {
    /// The digits, most significant first.
    pub closed spec fn view(&self) -> Seq<u8> {
        self.digits@
    }

    /// The index held as the end of the leading zeros.
    pub closed spec fn first_non_zero(&self) -> int {
        self.first_non_zero_index as int
    }

    /// The number that the digits denote.
    pub open spec fn value(&self) -> nat {
        seq_value(self@)
    }

    /// Every entry is a decimal digit, and the index held is the least one
    /// with a digit other than zero, or `NUM_DIGITS` when all are zero.
    pub open spec fn wf(&self) -> bool {
        &&& self@.len() == NUM_DIGITS
        &&& is_digits(self@)
        &&& is_first_non_zero(self@, self.first_non_zero())
    }

    /// The digits and the index follow from the value alone.
    pub proof fn lemma_canonical(&self)
        requires
            self.wf(),
        ensures
            self@ == decimal_digits(self.value(), NUM_DIGITS as nat),
            self.first_non_zero() == NUM_DIGITS - num_digits(self.value()),
            self.value() < pow10(NUM_DIGITS as nat),
    {
        lemma_decimal_digits_of_value(self@);
        lemma_num_digits_of_value(self@, self.first_non_zero());
        lemma_value_bound(self@);
    }

    /// Stepping and decoding agree: two arrays of one width that hold the
    /// same number hold it in the same digits, end their leading zeros at
    /// the same index, and have the same digit power sum, however each of
    /// them came to hold the number.
    pub proof fn lemma_same_number_same_digits(&self, other: &Self)
        requires
            self.wf(),
            other.wf(),
            self.value() == other.value(),
        ensures
            self@ == other@,
            self.first_non_zero() == other.first_non_zero(),
            power_sum(self.value()) == power_sum(other.value()),
    {
        self.lemma_canonical();
        other.lemma_canonical();
    }

    /// The digit power sum of the number held.
    pub fn exp(&self) -> (r: Number)
        requires
            self.wf(),
            num_digits(self.value()) <= MAX_DIGITS,
        ensures
            r == power_sum(self.value()),
    {
        proof {
            self.lemma_canonical();
            lemma_power_sum_of_digits(self@, self.first_non_zero());
            let window = self@.subrange(self.first_non_zero(), NUM_DIGITS as int);
            assert forall|i: int| 0 <= i < window.len() implies #[trigger] window[i] <= 9 by {
                assert(window[i] == self@[self.first_non_zero() + i]);
            }
        }
        let all: &[Digit] = self.digits.as_slice();
        calc_exp(slice_subrange(all, self.first_non_zero_index, NUM_DIGITS))
    }

    /// Writes one digit and moves the index held to it when it is a digit
    /// other than zero in front of that index.
    fn update_digit(&mut self, i: usize, new_digit: Digit)
        requires
            i < NUM_DIGITS,
        ensures
            final(self)@ == old(self)@.update(i as int, new_digit),
            final(self).first_non_zero() == if i < old(self).first_non_zero() && new_digit != 0 {
                i as int
            } else {
                old(self).first_non_zero()
            },
    {
        self.digits[i] = new_digit;
        if i < self.first_non_zero_index && new_digit != 0 {
            self.first_non_zero_index = i;
        }
    }

    /// Adds `10^pow` to the number held: the digit at that decimal place
    /// goes up by one, and every nine on the way turns to zero and carries
    /// to the left.
    pub fn add_base_pow(&mut self, pow: usize)
        requires
            old(self).wf(),
            old(self).value() + pow10(pow as nat) < pow10(NUM_DIGITS as nat),
        ensures
            final(self).wf(),
            final(self).value() == old(self).value() + pow10(pow as nat),
            final(self)@ == decimal_digits(
                old(self).value() + pow10(pow as nat),
                NUM_DIGITS as nat,
            ),
            final(self).first_non_zero() == NUM_DIGITS - num_digits(
                old(self).value() + pow10(pow as nat),
            ),
    {
        proof {
            if pow >= NUM_DIGITS {
                lemma_pow10_monotone(NUM_DIGITS as nat, pow as nat);
            }
        }
        let mut i: usize = NUM_DIGITS - pow;
        while i > 0
            invariant
                i <= NUM_DIGITS - pow,
                pow < NUM_DIGITS,
                old(self).wf(),
                old(self).value() + pow10(pow as nat) < pow10(NUM_DIGITS as nat),
                self@.len() == NUM_DIGITS,
                is_digits(self@),
                self.first_non_zero() == old(self).first_non_zero(),
                forall|j: int| 0 <= j < i ==> #[trigger] self@[j] == old(self)@[j],
                forall|j: int| i <= j < NUM_DIGITS - pow ==> #[trigger] self@[j] == 0,
                self.value() + pow10((NUM_DIGITS - i) as nat) == old(self).value() + pow10(
                    pow as nat,
                ),
            decreases i,
        {
            i = i - 1;
            let ghost before = self@;
            let digit: Digit = self.digits[i];
            proof {
                lemma_value_update(before, i as int, (digit + 1) as u8);
                lemma_value_update(before, i as int, 0);
                lemma_pow10_step((NUM_DIGITS - 1 - i) as nat);
                let unit = pow10((NUM_DIGITS - 1 - i) as nat) as int;
                assert((digit + 1) * unit == digit * unit + unit) by (nonlinear_arith);
                assert(0 * unit == 0);
                assert(9 * unit + unit == 10 * unit);
            }
            if digit < 9 {
                self.update_digit(i, digit + 1);
                proof {
                    self.lemma_canonical();
                }
                return ;
            }
            self.update_digit(i, 0);
        }
        proof {
            lemma_pow10_step(NUM_DIGITS as nat);
        }
    }

    /// The digits of `n`.
    pub fn from_number(n: Number) -> (r: Self)
        requires
            n < pow10(NUM_DIGITS as nat),
        ensures
            r.wf(),
            r.value() == n,
            r@ == decimal_digits(n as nat, NUM_DIGITS as nat),
            r.first_non_zero() == NUM_DIGITS - num_digits(n as nat),
    {
        let mut digits: [Digit; NUM_DIGITS] = [0; NUM_DIGITS];
        let first_non_zero_index = int_to_digits(n, &mut digits);
        let r = Self { digits, first_non_zero_index };
        proof {
            lemma_decimal_digits_shape(n as nat, NUM_DIGITS as nat);
            lemma_value_of_decimal_digits(n as nat, NUM_DIGITS as nat);
        }
        r
    }

    /// The digits of `n` with its last `N` digits replaced by
    /// `overwrite_digits`.
    pub fn from_number_with_overwrite<const N: usize>(
        n: Number,
        overwrite_digits: &[Digit; N],
    ) -> (r: Self)
        requires
            N <= NUM_DIGITS,
            is_digits(overwrite_digits@),
            n < pow10(NUM_DIGITS as nat),
        ensures
            r.wf(),
            r@ == decimal_digits(n as nat / pow10(N as nat), (NUM_DIGITS - N) as nat)
                + overwrite_digits@,
            r.value() == (n as nat / pow10(N as nat)) * pow10(N as nat) + seq_value(
                overwrite_digits@,
            ),
    {
        let mut digits: [Digit; NUM_DIGITS] = [0; NUM_DIGITS];
        let overwrite_start: usize = NUM_DIGITS - N;
        proof {
            lemma_div_pow10_bound(n as nat, overwrite_start as nat, N as nat);
        }
        let (upper, lower) = digits.split_at_mut(overwrite_start);
        copy_digits(lower, overwrite_digits);
        let index = int_to_digits(drop_low_digits(n, N), upper);
        let ghost high = upper@;
        let first_non_zero_index = if index == overwrite_start {
            first_non_zero_from(&digits, overwrite_start)
        } else {
            index
        };
        let r = Self { digits, first_non_zero_index };
        proof {
            let quotient = n as nat / pow10(N as nat);
            lemma_decimal_digits_shape(quotient, overwrite_start as nat);
            lemma_value_of_decimal_digits(quotient, overwrite_start as nat);
            lemma_value_concat(high, overwrite_digits@);
            assert(r@ == high + overwrite_digits@);
            assert forall|i: int| 0 <= i < NUM_DIGITS implies #[trigger] r@[i] <= 9 by {
                if i < overwrite_start {
                    assert(r@[i] == high[i]);
                } else {
                    assert(r@[i] == overwrite_digits@[i - overwrite_start]);
                }
            }
            assert forall|j: int| 0 <= j < r.first_non_zero() implies #[trigger] r@[j] == 0 by {
                if j < overwrite_start {
                    assert(r@[j] == high[j]);
                }
            }
            if index < overwrite_start {
                assert(r@[index as int] == high[index as int]);
            }
        }
        r
    }

    /// The number held, or the largest `Number` where it is above that.
    pub fn to_number(&self) -> (r: Number)
        ensures
            r == saturated(self.value()),
    {
        digits_to_num(&self.digits)
    }

    /// Replaces the last `N` digits by `digits` and finds the end of the
    /// leading zeros again where the new digits reach it.
    fn overwrite_digits<const N: usize>(&mut self, digits: &[Digit; N])
        requires
            old(self).wf(),
            N <= NUM_DIGITS,
            is_digits(digits@),
        ensures
            final(self).wf(),
            final(self)@ == old(self)@.subrange(0, NUM_DIGITS - N) + digits@,
            final(self).value() == (old(self).value() / pow10(N as nat)) * pow10(N as nat)
                + seq_value(digits@),
    {
        let start: usize = NUM_DIGITS - N;
        let ghost head = self@.subrange(0, start as int);
        let ghost tail = self@.subrange(start as int, NUM_DIGITS as int);
        let mut j: usize = 0;
        while j < N
            invariant
                j <= N <= NUM_DIGITS,
                start == NUM_DIGITS - N,
                self@.len() == NUM_DIGITS,
                self.first_non_zero() == old(self).first_non_zero(),
                forall|i: int| 0 <= i < start ==> #[trigger] self@[i] == old(self)@[i],
                forall|i: int| start <= i < start + j ==> #[trigger] self@[i] == digits@[i - start],
            decreases N - j,
        {
            self.digits[start + j] = digits[j];
            j += 1;
        }
        if start <= self.first_non_zero_index {
            self.first_non_zero_index = first_non_zero_from(&self.digits, start);
        }
        proof {
            assert(self@ =~= head + digits@);
            assert(old(self)@ =~= head + tail);
            assert forall|i: int| 0 <= i < NUM_DIGITS implies #[trigger] self@[i] <= 9 by {
                if i >= start {
                    assert(self@[i] == digits@[i - start]);
                }
            }
            assert forall|i: int| 0 <= i < N implies #[trigger] tail[i] <= 9 by {
                assert(tail[i] == old(self)@[start + i]);
            }
            lemma_value_concat(head, digits@);
            lemma_value_concat(head, tail);
            lemma_value_bound(tail);
            lemma_div_mod_of_parts(seq_value(head), seq_value(tail), pow10(N as nat));
        }
    }

    /// The same number with its last `N` digits replaced by `digits`.
    pub fn with_overwritten<const N: usize>(self, digits: &[Digit; N]) -> (r: Self)
        requires
            self.wf(),
            N <= NUM_DIGITS,
            is_digits(digits@),
        ensures
            r.wf(),
            r@ == self@.subrange(0, NUM_DIGITS - N) + digits@,
            r.value() == (self.value() / pow10(N as nat)) * pow10(N as nat) + seq_value(digits@),
    {
        let mut r = self;
        r.overwrite_digits::<N>(digits);
        r
    }

    /// The least number with `digit_count` digits: a one and zeros.
    pub fn min_for_digit_count(digit_count: u32) -> (r: Self)
        requires
            1 <= digit_count <= NUM_DIGITS,
        ensures
            r.wf(),
            r.value() == pow10((digit_count - 1) as nat),
            r@ == Seq::new(
                NUM_DIGITS as nat,
                |i: int|
                    if i == NUM_DIGITS - digit_count {
                        1u8
                    } else {
                        0u8
                    },
            ),
    {
        let mut digits: [Digit; NUM_DIGITS] = [0; NUM_DIGITS];
        let ghost zeros = digits@;
        let first: usize = NUM_DIGITS - digit_count as usize;
        digits[first] = 1;
        let r = Self { first_non_zero_index: first, digits };
        proof {
            lemma_value_zeros(zeros);
            lemma_value_update(zeros, first as int, 1);
            let unit = pow10((digit_count - 1) as nat);
            assert(0 * unit == 0 && 1 * unit == unit) by (nonlinear_arith);
            assert(r@ =~= Seq::new(
                NUM_DIGITS as nat,
                |i: int|
                    if i == NUM_DIGITS - digit_count {
                        1u8
                    } else {
                        0u8
                    },
            ));
        }
        r
    }

    /// The greatest number with `digit_count` digits: all nines.
    pub fn max_for_digit_count(digit_count: u32) -> (r: Self)
        requires
            digit_count <= NUM_DIGITS,
        ensures
            r.wf(),
            r.value() + 1 == pow10(digit_count as nat),
            r@ == Seq::new(
                NUM_DIGITS as nat,
                |i: int|
                    if i >= NUM_DIGITS - digit_count {
                        9u8
                    } else {
                        0u8
                    },
            ),
    {
        let mut digits: [Digit; NUM_DIGITS] = [0; NUM_DIGITS];
        let first: usize = NUM_DIGITS - digit_count as usize;
        let mut i: usize = NUM_DIGITS;
        proof {
            lemma_value_zeros(digits@);
            lemma_pow10_step(0);
        }
        while i > first
            invariant
                first <= i <= NUM_DIGITS,
                forall|j: int| 0 <= j < i ==> #[trigger] digits@[j] == 0,
                forall|j: int| i <= j < NUM_DIGITS ==> #[trigger] digits@[j] == 9,
                seq_value(digits@) + 1 == pow10((NUM_DIGITS - i) as nat),
            decreases i,
        {
            i = i - 1;
            proof {
                lemma_value_update(digits@, i as int, 9);
                lemma_pow10_step((NUM_DIGITS - 1 - i) as nat);
                let unit = pow10((NUM_DIGITS - 1 - i) as nat);
                assert(0 * unit == 0);
            }
            digits[i] = 9;
        }
        let r = Self { first_non_zero_index: first, digits };
        proof {
            assert(r@ =~= Seq::new(
                NUM_DIGITS as nat,
                |i: int|
                    if i >= NUM_DIGITS - digit_count {
                        9u8
                    } else {
                        0u8
                    },
            ));
        }
        r
    }
}

/// `x`, or the largest `Number` where `x` is above it.
pub open spec fn saturated(x: nat) -> nat {
    if x > u128::MAX {
        u128::MAX as nat
    } else {
        x
    }
}

/// The round trip: a number that fits the width, written as digits and read
/// back, is the number.
pub proof fn lemma_codec_round_trip(n: nat, width: nat)
    requires
        n < pow10(width),
        n <= u128::MAX,
    ensures
        saturated(seq_value(decimal_digits(n, width))) == n,
{
    lemma_value_of_decimal_digits(n, width);
}

/// Copies `from` over `to`, which has the same length.
fn copy_digits<const N: usize>(to: &mut [Digit], from: &[Digit; N])
    requires
        old(to)@.len() == N,
    ensures
        final(to)@ == from@,
{
    let mut j: usize = 0;
    while j < N
        invariant
            j <= N,
            to@.len() == N,
            forall|i: int| 0 <= i < j ==> #[trigger] to@[i] == from@[i],
        decreases N - j,
    {
        to[j] = from[j];
        j += 1;
    }
    proof {
        assert(to@ =~= from@);
    }
}

/// The least index from `start` on that holds a digit other than zero, or
/// the width where there is none.
fn first_non_zero_from<const W: usize>(digits: &[Digit; W], start: usize) -> (first: usize)
    requires
        start <= W,
    ensures
        start <= first <= W,
        forall|j: int| start <= j < first ==> #[trigger] digits@[j] == 0,
        first < W ==> digits@[first as int] != 0,
{
    let mut first: usize = start;
    while first < W && digits[first] == 0
        invariant
            start <= first <= W,
            forall|j: int| start <= j < first ==> #[trigger] digits@[j] == 0,
        decreases W - first,
    {
        first += 1;
    }
    first
}

/// The number that `digits` denote, or the largest `Number` where it is
/// above that.
pub fn digits_to_num<const N: usize>(digits: &[Digit; N]) -> (res: Number)
    ensures
        res == saturated(seq_value(digits@)),
{
    let mut res: Number = 0;
    let mut base: Number = 1;
    let mut i: usize = N;
    proof {
        lemma_pow10_step(0);
        assert(digits@.subrange(N as int, N as int) =~= Seq::<u8>::empty());
    }
    while i > 0
        invariant
            i <= N,
            res == saturated(seq_value(digits@.subrange(i as int, N as int))),
            base == saturated(pow10((N - i) as nat)),
        decreases i,
    {
        i = i - 1;
        let d: Number = digits[i] as Number;
        proof {
            let tail = digits@.subrange(i + 1, N as int);
            let unit = pow10((N - 1 - i) as nat);
            assert(digits@.subrange(i as int, N as int) =~= seq![digits@[i as int]] + tail);
            lemma_value_concat(seq![digits@[i as int]], tail);
            assert(seq_value(seq![digits@[i as int]]) == digits@[i as int]) by {
                reveal_with_fuel(seq_value, 2);
            }
            lemma_pow10_step((N - 1 - i) as nat);
            assert(d > 0 && unit > u128::MAX ==> d * unit > u128::MAX) by (nonlinear_arith);
            assert(d > 0 ==> d * u128::MAX >= u128::MAX) by (nonlinear_arith);
            assert(d == 0 ==> d * unit == 0 && d * base == 0) by (nonlinear_arith);
        }
        let res_add: Number = match d.checked_mul(base) {
            Some(product) => product,
            None => u128::MAX,
        };
        res = match res.checked_add(res_add) {
            Some(sum) => sum,
            None => u128::MAX,
        };
        base = match base.checked_mul(10) {
            Some(next) => next,
            None => u128::MAX,
        };
    }
    proof {
        assert(digits@.subrange(0, N as int) =~= digits@);
    }
    res
}

} // verus!
