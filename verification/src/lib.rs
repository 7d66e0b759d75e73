//! Disarium numbers: the numbers that equal the sum of their decimal digits,
//! each raised to the power of its position counted from the left. The
//! search goes digit count by digit count; within one digit count it freezes
//! the last digits to each value in turn and walks only the window in which
//! a number ending in those digits can equal its own digit power sum.

use crate::decimal::{
    lemma_num_digits_at_most, lemma_num_digits_bounds, lemma_pow10_monotone, lemma_pow10_step,
    lemma_pow10_table, pow10, ten_pow,
};
use crate::frozen::smaller;
use crate::power_sum::is_disarium;
use crate::results::{
    disarium_between, disarium_of_digit_count, lemma_disarium_between,
    lemma_disarium_between_split, lemma_disarium_by_digit_count, strictly_ascending,
};
use crate::search::{freeze_and_split, num_digits};
use crate::table::MAX_DIGITS;
use vstd::prelude::*;

pub mod decimal;
pub mod digits;
pub mod frozen;
pub mod itoa;
pub mod power_sum;
pub mod results;
pub mod search;
pub mod table;

verus! {

/// One decimal digit.
pub type Digit = u8;

/// A candidate or a result.
pub type Number = u128;

/// The Disarium numbers with `digit_count` digits that are at most `bound`,
/// in ascending order, searched with the number of frozen digits, the width
/// of the digit array and the number of digits dealt out to threads that
/// suit the digit count.
pub fn search_digit_count(digit_count: u32, bound: Number) -> (res: Vec<Number>)
    requires
        1 <= digit_count <= MAX_DIGITS,
    ensures
        res@ == disarium_of_digit_count(digit_count as nat, bound as nat),
{
    match digit_count {
        1 | 2 | 3 | 4 => freeze_and_split::<4, 4, 0>(digit_count, bound),
        5 => freeze_and_split::<2, 5, 0>(digit_count, bound),
        6 => freeze_and_split::<2, 6, 0>(digit_count, bound),
        7 => freeze_and_split::<2, 7, 1>(digit_count, bound),
        8 => freeze_and_split::<3, 8, 1>(digit_count, bound),
        9 => freeze_and_split::<3, 9, 1>(digit_count, bound),
        10 => freeze_and_split::<4, 10, 2>(digit_count, bound),
        11 => freeze_and_split::<4, 11, 2>(digit_count, bound),
        12 => freeze_and_split::<5, 12, 2>(digit_count, bound),
        13 => freeze_and_split::<5, 13, 2>(digit_count, bound),
        14 => freeze_and_split::<6, 14, 2>(digit_count, bound),
        15 => freeze_and_split::<6, 15, 2>(digit_count, bound),
        16 => freeze_and_split::<7, 16, 2>(digit_count, bound),
        17 => freeze_and_split::<7, 17, 2>(digit_count, bound),
        18 => freeze_and_split::<8, 18, 2>(digit_count, bound),
        19 => freeze_and_split::<8, 19, 2>(digit_count, bound),
        20 => freeze_and_split::<9, 20, 3>(digit_count, bound),
        21 => freeze_and_split::<9, 21, 3>(digit_count, bound),
        22 => freeze_and_split::<10, 22, 3>(digit_count, bound),
        23 => freeze_and_split::<10, 23, 3>(digit_count, bound),
        24 => freeze_and_split::<11, 24, 3>(digit_count, bound),
        _ => freeze_and_split::<11, 25, 3>(digit_count, bound),
    }
}

/// The greatest bound that a search takes: the greatest number with
/// `MAX_DIGITS` digits.
pub const MAX_BOUND: Number = 9_999_999_999_999_999_999_999_999;

/// All Disarium numbers from zero to `bound`, in ascending order.
pub fn find_disarium(bound: Number) -> (res: Vec<Number>)
    requires
        bound <= MAX_BOUND,
    ensures
        res@ == disarium_between(0, (bound + 1) as nat),
        strictly_ascending(res@),
        forall|x: u128| #[trigger] res@.contains(x) <==> x <= bound && is_disarium(x as nat),
{
    let max_digit_count: u32 = num_digits(bound);
    let mut res: Vec<Number> = Vec::new();
    res.push(0);
    let mut digit_count: u32 = 1;
    proof {
        lemma_pow10_table();
        lemma_num_digits_at_most(bound as nat, MAX_DIGITS as nat);
        lemma_num_digits_bounds(bound as nat);
        lemma_pow10_step(0);
        lemma_disarium_by_digit_count(0);
        assert(res@ =~= seq![0u128]);
    }
    while digit_count <= max_digit_count
        invariant
            1 <= digit_count <= max_digit_count + 1,
            max_digit_count <= MAX_DIGITS,
            bound < pow10(max_digit_count as nat),
            max_digit_count > 0 ==> pow10((max_digit_count - 1) as nat) <= bound,
            res@ == disarium_between(
                0,
                smaller(pow10((digit_count - 1) as nat), (bound + 1) as nat),
            ),
        decreases max_digit_count + 1 - digit_count,
    {
        let mut found: Vec<Number> = search_digit_count(digit_count, bound);
        proof {
            let low = pow10((digit_count - 1) as nat);
            let high = smaller(pow10(digit_count as nat), (bound + 1) as nat);
            lemma_pow10_monotone((digit_count - 1) as nat, (max_digit_count - 1) as nat);
            lemma_pow10_monotone((digit_count - 1) as nat, digit_count as nat);
            assert(found@ == disarium_between(low, high));
            lemma_disarium_between_split(0, low, high);
        }
        res.append(&mut found);
        digit_count = digit_count + 1;
    }
    proof {
        lemma_disarium_between(0, (bound + 1) as nat);
    }
    res
}

/// All Disarium numbers with `digit_count` digits, in ascending order.
pub fn find_disarium_for_digit_count(digit_count: u32) -> (res: Vec<Number>)
    requires
        1 <= digit_count <= MAX_DIGITS,
    ensures
        res@ == disarium_between(pow10((digit_count - 1) as nat), pow10(digit_count as nat)),
{
    proof {
        lemma_pow10_monotone(digit_count as nat, 25);
        lemma_pow10_table();
        lemma_pow10_step(digit_count as nat);
    }
    let max: Number = ten_pow(digit_count) - 1;
    search_digit_count(digit_count, max)
}

} // verus!
