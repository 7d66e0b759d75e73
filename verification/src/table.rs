//! The table of digit powers and the digit power sum of a slice of digits.

use crate::decimal::{is_digits, lemma_pow10_monotone, lemma_pow10_table};
use crate::power_sum::{
    digit_power, lemma_digit_power_step, lemma_seq_power_sum_bound, seq_power_sum,
};
use crate::{Digit, Number};
use vstd::prelude::*;

verus! {

/// The largest digit count that the table of digit powers serves.
pub const MAX_DIGITS: usize = 25;

/// `DIGIT_POWERS[d][p]` is digit `d` raised to the power `p + 1`.
const DIGIT_POWERS: [[Number; MAX_DIGITS]; 10] = [
    [0, 0, 0, 0, 0, 0, 0, 0, 0, 0, 0, 0, 0, 0, 0, 0, 0, 0, 0, 0, 0, 0, 0, 0, 0],
    [1, 1, 1, 1, 1, 1, 1, 1, 1, 1, 1, 1, 1, 1, 1, 1, 1, 1, 1, 1, 1, 1, 1, 1, 1],
    [
        2, 4, 8, 16, 32, 64, 128, 256, 512, 1024, 2048, 4096, 8192, 16384, 32768, 65536, 131072,
        262144, 524288, 1048576, 2097152, 4194304, 8388608, 16777216, 33554432,
    ],
    [
        3, 9, 27, 81, 243, 729, 2187, 6561, 19683, 59049, 177147, 531441, 1594323, 4782969,
        14348907, 43046721, 129140163, 387420489, 1162261467, 3486784401, 10460353203, 31381059609,
        94143178827, 282429536481, 847288609443,
    ],
    [
        4, 16, 64, 256, 1024, 4096, 16384, 65536, 262144, 1048576, 4194304, 16777216, 67108864,
        268435456, 1073741824, 4294967296, 17179869184, 68719476736, 274877906944, 1099511627776,
        4398046511104, 17592186044416, 70368744177664, 281474976710656, 1125899906842624,
    ],
    [
        5, 25, 125, 625, 3125, 15625, 78125, 390625, 1953125, 9765625, 48828125, 244140625,
        1220703125, 6103515625, 30517578125, 152587890625, 762939453125, 3814697265625,
        19073486328125, 95367431640625, 476837158203125, 2384185791015625, 11920928955078125,
        59604644775390625, 298023223876953125,
    ],
    [
        6, 36, 216, 1296, 7776, 46656, 279936, 1679616, 10077696, 60466176, 362797056, 2176782336,
        13060694016, 78364164096, 470184984576, 2821109907456, 16926659444736, 101559956668416,
        609359740010496, 3656158440062976, 21936950640377856, 131621703842267136,
        789730223053602816, 4738381338321616896, 28430288029929701376,
    ],
    [
        7, 49, 343, 2401, 16807, 117649, 823543, 5764801, 40353607, 282475249, 1977326743,
        13841287201, 96889010407, 678223072849, 4747561509943, 33232930569601, 232630513987207,
        1628413597910449, 11398895185373143, 79792266297612001, 558545864083284007,
        3909821048582988049, 27368747340080916343, 191581231380566414401, 1341068619663964900807,
    ],
    [
        8, 64, 512, 4096, 32768, 262144, 2097152, 16777216, 134217728, 1073741824, 8589934592,
        68719476736, 549755813888, 4398046511104, 35184372088832, 281474976710656, 2251799813685248,
        18014398509481984, 144115188075855872, 1152921504606846976, 9223372036854775808,
        73786976294838206464, 590295810358705651712, 4722366482869645213696,
        37778931862957161709568,
    ],
    [
        9, 81, 729, 6561, 59049, 531441, 4782969, 43046721, 387420489, 3486784401, 31381059609,
        282429536481, 2541865828329, 22876792454961, 205891132094649, 1853020188851841,
        16677181699666569, 150094635296999121, 1350851717672992089, 12157665459056928801,
        109418989131512359209, 984770902183611232881, 8862938119652501095929,
        79766443076872509863361, 717897987691852588770249,
    ],
];

/// Each entry of the table is its left neighbour times the digit.
proof fn lemma_table_step(d: int, p: int)
    requires
        0 <= d <= 9,
        0 <= p < MAX_DIGITS,
    ensures
        DIGIT_POWERS[d][p] == if p == 0 {
            d
        } else {
            d * DIGIT_POWERS[d][p - 1]
        },
{
    assert(d == 0 || d == 1 || d == 2 || d == 3 || d == 4 || d == 5 || d == 6 || d == 7 || d == 8
        || d == 9);
    assert(p == 0 || p == 1 || p == 2 || p == 3 || p == 4 || p == 5 || p == 6 || p == 7 || p == 8
        || p == 9 || p == 10 || p == 11 || p == 12 || p == 13 || p == 14 || p == 15 || p == 16
        || p == 17 || p == 18 || p == 19 || p == 20 || p == 21 || p == 22 || p == 23 || p == 24);
}

/// Each entry of the table is the power that its place stands for.
proof fn lemma_table_entry(d: int, p: int)
    requires
        0 <= d <= 9,
        0 <= p < MAX_DIGITS,
    ensures
        DIGIT_POWERS[d][p] == digit_power(d as nat, (p + 1) as nat),
    decreases p,
{
    lemma_digit_power_step(d as nat, p as nat);
    lemma_table_step(d, p);
    if p == 0 {
        assert(d * 1 == d);
    } else {
        lemma_table_entry(d, p - 1);
        assert((p - 1 + 1) as nat == p as nat);
        let left = DIGIT_POWERS[d][p - 1] as int;
        assert(left == digit_power(d as nat, p as nat));
        assert(d * left == (d as nat) * digit_power(d as nat, p as nat));
    }
}

/// Digit `digit` raised to the power `position + 1`, read from the table.
pub fn exp_digit(digit: Digit, position: usize) -> (r: Number)
    requires
        digit <= 9,
        position < MAX_DIGITS,
    ensures
        r == digit_power(digit as nat, (position + 1) as nat),
{
    proof {
        lemma_table_entry(digit as int, position as int);
    }
    DIGIT_POWERS[digit as usize][position]
}

/// The digit power sum of `digits`: the first digit to the power one, the
/// second to the power two, and so on.
pub fn calc_exp(digits: &[Digit]) -> (r: Number)
    requires
        is_digits(digits@),
        digits@.len() <= MAX_DIGITS,
    ensures
        r == seq_power_sum(digits@),
{
    let mut sum: Number = 0;
    let mut position: usize = 0;
    while position < digits.len()
        invariant
            position <= digits@.len() <= MAX_DIGITS,
            is_digits(digits@),
            sum == seq_power_sum(digits@.subrange(0, position as int)),
        decreases digits@.len() - position,
    {
        proof {
            let next = digits@.subrange(0, position + 1);
            assert(next.drop_last() =~= digits@.subrange(0, position as int));
            assert(next.last() == digits@[position as int]);
            lemma_seq_power_sum_bound(next);
            lemma_pow10_monotone(next.len(), 25);
            lemma_pow10_table();
        }
        sum = sum + exp_digit(digits[position], position);
        position += 1;
    }
    proof {
        assert(digits@.subrange(0, position as int) =~= digits@);
    }
    sum
}

} // verus!
