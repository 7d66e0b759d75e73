//! The search: a walk over candidates that keeps their digits in step, the
//! window of one class of frozen digits, and the split of a digit count into
//! such classes, run one after the other or side by side.

use crate::decimal::{
    decimal_digits, is_digits, lemma_decimal_digits_shape, lemma_div_mod_of_parts,
    lemma_div_pow10_bound, lemma_num_digits_at_most, lemma_pow10_adds, lemma_pow10_fits,
    lemma_pow10_monotone, lemma_pow10_step, lemma_pow10_table, lemma_value_bound,
    lemma_value_of_decimal_digits, pow10, seq_value, ten_pow,
};
use crate::digits::Digits;
use crate::frozen::{
    block_matches, class_max, class_min, frozen_matches, lemma_blocks_join, lemma_class_ends,
    lemma_rounded_sum, lemma_sorted_blocks, lemma_window_search, smaller,
};
use crate::power_sum::power_sum;
use crate::results::{disarium_of_digit_count, disarium_stepping, lemma_stepping_by_one};
use crate::table::MAX_DIGITS;
use crate::{Digit, Number};
use rayon::iter::{IntoParallelIterator, ParallelIterator};
use vstd::prelude::*;
use vstd::seq_lib::{to_multiset_build, to_multiset_insert};

verus! {

/// Each entry is at most the next.
pub open spec fn ascending(s: Seq<u128>) -> bool {
    forall|i: int, j: int| 0 <= i < j < s.len() ==> s[i] <= s[j]
}

/// How many decimal digits `n` has; zero has none.
pub fn num_digits(n: Number) -> (count: u32)
    ensures
        count == crate::decimal::num_digits(n as nat),
        count <= 39,
{
    let mut rest: Number = n;
    let mut count: u32 = 0;
    proof {
        lemma_pow10_table();
        lemma_pow10_step(38);
        lemma_num_digits_at_most(n as nat, 39);
    }
    while rest > 0
        invariant
            count + crate::decimal::num_digits(rest as nat) == crate::decimal::num_digits(
                n as nat,
            ),
            crate::decimal::num_digits(n as nat) <= 39,
        decreases rest,
    {
        count = count + 1;
        rest = rest / 10;
    }
    count
}

/// The digit at a place is what is left of the number, after the places
/// behind it are divided away, on division by ten.
proof fn lemma_digit_after_division(n: nat, width: nat, done: nat)
    requires
        done < width,
    ensures
        decimal_digits(n, width)[width - 1 - done] == (n / pow10(done)) % 10,
    decreases done,
{
    let narrower = decimal_digits(n / 10, (width - 1) as nat);
    lemma_decimal_digits_shape(n / 10, (width - 1) as nat);
    lemma_pow10_step(0);
    assert(decimal_digits(n, width) == narrower.push((n % 10) as u8));
    if done > 0 {
        let less = (done - 1) as nat;
        lemma_digit_after_division(n / 10, (width - 1) as nat, less);
        lemma_pow10_step(less);
        vstd::arithmetic::div_mod::lemma_div_denominator(n as int, 10, pow10(less) as int);
        assert(pow10(done) == 10 * pow10(less));
        assert(decimal_digits(n, width)[width - 1 - done] == narrower[width - 1 - 1 - less]);
        assert((n / 10) / pow10(less) == n / pow10(done));
    } else {
        let unit = pow10(0);
        assert(n / unit == n) by (nonlinear_arith)
            requires
                unit == 1,
        ;
    }
}

/// The `N` decimal digits of `n`, most significant first, with zeros in
/// front.
pub fn num_to_digits<const N: usize>(n: Number) -> (digits: [Digit; N])
    requires
        n < pow10(N as nat),
    ensures
        digits@ == decimal_digits(n as nat, N as nat),
        is_digits(digits@),
        seq_value(digits@) == n,
{
    let mut digits: [Digit; N] = [0; N];
    let mut rest: Number = n;
    let mut i: usize = N;
    proof {
        lemma_pow10_step(0);
        lemma_decimal_digits_shape(n as nat, N as nat);
        lemma_value_of_decimal_digits(n as nat, N as nat);
        let unit = pow10((N - i) as nat);
        assert((n as nat) / unit == n) by (nonlinear_arith)
            requires
                unit == 1,
        ;
    }
    while i > 0
        invariant
            i <= N,
            rest == n as nat / pow10((N - i) as nat),
            forall|j: int| i <= j < N ==> #[trigger] digits@[j] == decimal_digits(
                n as nat,
                N as nat,
            )[j],
        decreases i,
    {
        i = i - 1;
        proof {
            let done = (N - 1 - i) as nat;
            lemma_digit_after_division(n as nat, N as nat, done);
            lemma_pow10_step(done);
            vstd::arithmetic::div_mod::lemma_div_denominator(n as int, pow10(done) as int, 10);
            assert(pow10(done) * 10 == pow10(done + 1));
        }
        digits[i] = (rest % 10) as Digit;
        rest = rest / 10;
    }
    proof {
        assert(digits@ =~= decimal_digits(n as nat, N as nat));
    }
    digits
}

/// The Disarium numbers among `start_number`, `start_number + 10^delta_pow`
/// and so on up to `end`. `start_digits` holds the digits of `start_number`
/// and is stepped along, so that no candidate is taken apart from scratch.
pub fn search_range<const NUM_DIGITS: usize>(
    start_number: Number,
    start_digits: Digits<NUM_DIGITS>,
    end: Number,
    delta_pow: u32,
) -> (res: Vec<Number>)
    requires
        start_digits.wf(),
        start_digits.value() == start_number,
        NUM_DIGITS <= MAX_DIGITS,
        end < pow10(NUM_DIGITS as nat),
        delta_pow <= 38,
    ensures
        res@ == disarium_stepping(start_number as nat, pow10(delta_pow as nat), end as nat),
{
    let mut res: Vec<Number> = Vec::new();
    if start_number > end {
        return res;
    }
    let delta: Number = ten_pow(delta_pow);
    let mut number: Number = start_number;
    let mut digits = start_digits;
    proof {
        lemma_pow10_step(delta_pow as nat);
        assert(res@ + disarium_stepping(number as nat, delta as nat, end as nat)
            =~= disarium_stepping(start_number as nat, delta as nat, end as nat));
    }
    loop
        invariant_except_break
            digits.wf(),
            digits.value() == number,
            res@ + disarium_stepping(number as nat, delta as nat, end as nat) == disarium_stepping(
                start_number as nat,
                delta as nat,
                end as nat,
            ),
        invariant
            number <= end < pow10(NUM_DIGITS as nat),
            NUM_DIGITS <= MAX_DIGITS,
            delta == pow10(delta_pow as nat),
            delta > 0,
        ensures
            res@ == disarium_stepping(start_number as nat, delta as nat, end as nat),
        decreases end - number,
    {
        let ghost found = res@;
        let ghost ahead = disarium_stepping((number + delta) as nat, delta as nat, end as nat);
        proof {
            lemma_num_digits_at_most(number as nat, NUM_DIGITS as nat);
        }
        if digits.exp() == number {
            res.push(number);
            proof {
                assert(res@ + ahead =~= found + (seq![number] + ahead));
            }
        }
        assert(res@ + ahead == disarium_stepping(start_number as nat, delta as nat, end as nat));
        if end - number < delta {
            proof {
                assert(res@ + ahead =~= res@);
            }
            break ;
        }
        digits.add_base_pow(delta_pow as usize);
        number = number + delta;
    }
    res
}

/// The Disarium numbers with `digit_count` digits that are at most `bound`,
/// found by a walk over all numbers of that digit count.
pub fn disarium_for_digit_count<const NUM_DIGITS: usize>(digit_count: u32, bound: Number) -> (res:
    Vec<Number>)
    requires
        1 <= digit_count <= NUM_DIGITS <= MAX_DIGITS,
    ensures
        res@ == disarium_of_digit_count(digit_count as nat, bound as nat),
{
    proof {
        lemma_pow10_monotone(digit_count as nat, NUM_DIGITS as nat);
        lemma_pow10_fits(NUM_DIGITS as nat);
        lemma_pow10_step(digit_count as nat);
    }
    let start_number: Number = ten_pow(digit_count - 1);
    let start_digits: Digits<NUM_DIGITS> = Digits::min_for_digit_count(digit_count);
    let last: Number = ten_pow(digit_count) - 1;
    let end: Number = if last <= bound {
        last
    } else {
        bound
    };
    proof {
        lemma_stepping_by_one(start_number as nat, end as nat);
    }
    search_range::<NUM_DIGITS>(start_number, start_digits, end, 0)
}

/// The Disarium numbers with `digit_count_unfrozen + NUM_FROZEN` digits
/// that are at most `bound` and end in `frozen_digits`. The walk is cut to
/// the window between the digit power sums of the least and the greatest
/// number that end in those digits.
pub fn disarium_for_digit_count_with_frozen<const NUM_FROZEN: usize, const NUM_DIGITS: usize>(
    digit_count_unfrozen: u32,
    bound: Number,
    frozen_digits: [Digit; NUM_FROZEN],
) -> (res: Vec<Number>)
    requires
        digit_count_unfrozen >= 1,
        digit_count_unfrozen + NUM_FROZEN <= NUM_DIGITS <= MAX_DIGITS,
        is_digits(frozen_digits@),
    ensures
        res@ == frozen_matches(
            (digit_count_unfrozen + NUM_FROZEN) as nat,
            NUM_FROZEN as nat,
            bound as nat,
            seq_value(frozen_digits@),
        ),
{
    let digit_count: u32 = digit_count_unfrozen + NUM_FROZEN as u32;
    let ghost residue = seq_value(frozen_digits@);
    let ghost least = class_min(digit_count as nat, residue);
    let ghost greatest = class_max(digit_count as nat, NUM_FROZEN as nat, residue);
    proof {
        let step = pow10(NUM_FROZEN as nat);
        let low = pow10((digit_count - 1 - NUM_FROZEN) as nat);
        let high = pow10((digit_count - NUM_FROZEN) as nat);
        lemma_value_bound(frozen_digits@);
        lemma_class_ends(digit_count as nat, NUM_FROZEN as nat, residue);
        lemma_pow10_monotone(digit_count as nat, NUM_DIGITS as nat);
        lemma_pow10_fits(NUM_DIGITS as nat);
        lemma_pow10_step(NUM_FROZEN as nat);
        lemma_div_mod_of_parts(low, 0, step);
        lemma_div_mod_of_parts((high - 1) as nat, (step - 1) as nat, step);
        assert((high - 1) * step == high * step - step) by (nonlinear_arith);
        lemma_rounded_sum(least, digit_count as nat, NUM_FROZEN as nat, residue);
        lemma_rounded_sum(greatest, digit_count as nat, NUM_FROZEN as nat, residue);
        lemma_window_search(digit_count as nat, frozen_digits@, bound as nat);
    }
    let min_digits: Digits<NUM_DIGITS> = Digits::min_for_digit_count(digit_count).with_overwritten(
        &frozen_digits,
    );
    let max_digits: Digits<NUM_DIGITS> = Digits::max_for_digit_count(digit_count).with_overwritten(
        &frozen_digits,
    );
    assert(min_digits.value() == least);
    assert(max_digits.value() == greatest);
    let start_digits: Digits<NUM_DIGITS> = Digits::from_number_with_overwrite(
        min_digits.exp(),
        &frozen_digits,
    );
    let end_digits: Digits<NUM_DIGITS> = Digits::from_number_with_overwrite(
        max_digits.exp(),
        &frozen_digits,
    );
    let min_number: Number = min_digits.to_number();
    let from_sum: Number = start_digits.to_number();
    let (start_number, start_digits) = if from_sum >= min_number {
        (from_sum, start_digits)
    } else {
        (min_number, min_digits)
    };
    let end: Number = least_of(least_of(end_digits.to_number(), max_digits.to_number()), bound);
    search_range::<NUM_DIGITS>(start_number, start_digits, end, NUM_FROZEN as u32)
}

/// The smaller of two numbers.
fn least_of(a: Number, b: Number) -> (r: Number)
    ensures
        r == smaller(a as nat, b as nat),
{
    if a <= b {
        a
    } else {
        b
    }
}

/// The sequences of the classes of `count` residues from `first` on, one
/// after the other.
pub fn search_frozen_block<const NUM_FROZEN: usize, const NUM_DIGITS: usize>(
    digit_count_unfrozen: u32,
    bound: Number,
    first: Number,
    count: Number,
) -> (res: Vec<Number>)
    requires
        digit_count_unfrozen >= 1,
        digit_count_unfrozen + NUM_FROZEN <= NUM_DIGITS <= MAX_DIGITS,
        first + count <= pow10(NUM_FROZEN as nat),
    ensures
        res@ == block_matches(
            (digit_count_unfrozen + NUM_FROZEN) as nat,
            NUM_FROZEN as nat,
            bound as nat,
            first as nat,
            count as nat,
        ),
{
    let mut res: Vec<Number> = Vec::new();
    let mut done: Number = 0;
    proof {
        lemma_pow10_monotone(NUM_FROZEN as nat, 25);
        lemma_pow10_table();
    }
    while done < count
        invariant
            done <= count,
            digit_count_unfrozen >= 1,
            digit_count_unfrozen + NUM_FROZEN <= NUM_DIGITS <= MAX_DIGITS,
            first + count <= pow10(NUM_FROZEN as nat) <= 10000000000000000000000000,
            res@ == block_matches(
                (digit_count_unfrozen + NUM_FROZEN) as nat,
                NUM_FROZEN as nat,
                bound as nat,
                first as nat,
                done as nat,
            ),
        decreases count - done,
    {
        let frozen_number: Number = first + done;
        let frozen_digits: [Digit; NUM_FROZEN] = num_to_digits::<NUM_FROZEN>(frozen_number);
        let mut found: Vec<Number> = disarium_for_digit_count_with_frozen::<
            NUM_FROZEN,
            NUM_DIGITS,
        >(digit_count_unfrozen, bound, frozen_digits);
        res.append(&mut found);
        done = done + 1;
    }
    res
}

/// The block of `block_len` residues with the number `index`, counted from
/// zero.
pub fn search_block_at<const NUM_FROZEN: usize, const NUM_DIGITS: usize>(
    digit_count_unfrozen: u32,
    bound: Number,
    block_len: Number,
    index: usize,
) -> (res: Vec<Number>)
    requires
        digit_count_unfrozen >= 1,
        digit_count_unfrozen + NUM_FROZEN <= NUM_DIGITS <= MAX_DIGITS,
        (index + 1) * block_len <= pow10(NUM_FROZEN as nat),
    ensures
        res@ == block_matches(
            (digit_count_unfrozen + NUM_FROZEN) as nat,
            NUM_FROZEN as nat,
            bound as nat,
            (index * block_len) as nat,
            block_len as nat,
        ),
{
    proof {
        lemma_pow10_monotone(NUM_FROZEN as nat, 25);
        lemma_pow10_table();
        assert((index + 1) * block_len == index * block_len + block_len) by (nonlinear_arith);
        assert(index * block_len >= 0) by (nonlinear_arith);
    }
    let first: Number = (index as Number) * block_len;
    search_frozen_block::<NUM_FROZEN, NUM_DIGITS>(digit_count_unfrozen, bound, first, block_len)
}

/// Hands the blocks with the numbers below `blocks` to rayon's thread pool,
/// through `into_par_iter`, `map` and `collect` on the range of those
/// numbers, and waits for all of them. Trusted, not proved: the vector that
/// comes back holds, at each index, what `search_block_at` returns for that
/// index. It rests on rayon calling the closure once for each number of the
/// range, and on `collect` into a vector keeping the order of an indexed
/// parallel iterator, which a range of `usize` is.
#[verifier::external_body]
fn search_blocks_in_parallel<const NUM_FROZEN: usize, const NUM_DIGITS: usize>(
    digit_count_unfrozen: u32,
    bound: Number,
    block_len: Number,
    blocks: usize,
) -> (res: Vec<Vec<Number>>)
    requires
        digit_count_unfrozen >= 1,
        digit_count_unfrozen + NUM_FROZEN <= NUM_DIGITS <= MAX_DIGITS,
        blocks * block_len <= pow10(NUM_FROZEN as nat),
    ensures
        res@.len() == blocks,
        forall|index: int|
            0 <= index < blocks ==> (#[trigger] res@[index])@ == block_matches(
                (digit_count_unfrozen + NUM_FROZEN) as nat,
                NUM_FROZEN as nat,
                bound as nat,
                (index * block_len) as nat,
                block_len as nat,
            ),
{
    (0..blocks).into_par_iter().map(
        |index| search_block_at::<NUM_FROZEN, NUM_DIGITS>(
            digit_count_unfrozen,
            bound,
            block_len,
            index,
        ),
    ).collect()
}

/// The entries of `values` in ascending order.
pub fn sort_ascending(values: &Vec<Number>) -> (sorted: Vec<Number>)
    ensures
        ascending(sorted@),
        sorted@.to_multiset() == values@.to_multiset(),
{
    let mut sorted: Vec<Number> = Vec::new();
    let mut taken: usize = 0;
    proof {
        assert(values@.subrange(0, 0) =~= sorted@);
    }
    while taken < values.len()
        invariant
            taken <= values@.len(),
            ascending(sorted@),
            sorted@.to_multiset() == values@.subrange(0, taken as int).to_multiset(),
        decreases values@.len() - taken,
    {
        let x: Number = values[taken];
        let mut at: usize = sorted.len();
        while at > 0 && sorted[at - 1] > x
            invariant
                at <= sorted@.len(),
                ascending(sorted@),
                forall|j: int| at <= j < sorted@.len() ==> x < #[trigger] sorted@[j],
            decreases at,
        {
            at = at - 1;
        }
        let ghost before = sorted@;
        sorted.insert(at, x);
        proof {
            to_multiset_insert(before, at as int, x);
            to_multiset_build(values@.subrange(0, taken as int), x);
            assert(values@.subrange(0, taken + 1) =~= values@.subrange(0, taken as int).push(x));
            assert forall|i: int, j: int| 0 <= i < j < sorted@.len() implies sorted@[i]
                <= sorted@[j] by {
                let a = if i < at {
                    i
                } else {
                    i - 1
                };
                let b = if j < at {
                    j
                } else {
                    j - 1
                };
                if i != at && j != at {
                    assert(before[a] <= before[b]);
                } else if i == at {
                    assert(x < before[b]);
                } else if at > 0 {
                    assert(before[a] <= before[at - 1]);
                }
            }
        }
        taken = taken + 1;
    }
    proof {
        assert(values@.subrange(0, taken as int) =~= values@);
    }
    sorted
}

/// The Disarium numbers with `digit_count` digits that are at most `bound`,
/// in ascending order. Where the digit count is above `NUM_FROZEN`, the
/// last `NUM_FROZEN` digits are frozen to each value in turn, and each class
/// is searched in its window; with `NUM_THREAD_DIGITS` above zero the
/// classes are dealt out in `10^NUM_THREAD_DIGITS` blocks that run side by
/// side. What was found is put in order at the end, so the result is the
/// same whatever the three parameters are.
pub fn freeze_and_split<
    const NUM_FROZEN: usize,
    const NUM_DIGITS: usize,
    const NUM_THREAD_DIGITS: u32,
>(digit_count: u32, bound: Number) -> (res: Vec<Number>)
    requires
        1 <= digit_count <= NUM_DIGITS <= MAX_DIGITS,
        NUM_THREAD_DIGITS <= NUM_FROZEN,
    ensures
        res@ == disarium_of_digit_count(digit_count as nat, bound as nat),
{
    if digit_count as usize <= NUM_FROZEN {
        disarium_for_digit_count::<NUM_DIGITS>(digit_count, bound)
    } else {
        let digit_count_unfrozen: u32 = digit_count - NUM_FROZEN as u32;
        proof {
            lemma_pow10_monotone(NUM_FROZEN as nat, 25);
            lemma_pow10_monotone(digit_count as nat, 25);
            lemma_pow10_table();
        }
        let gathered: Vec<Number> = if NUM_THREAD_DIGITS > 0 {
            let blocks: Number = ten_pow(NUM_THREAD_DIGITS);
            let block_len: Number = ten_pow(NUM_FROZEN as u32 - NUM_THREAD_DIGITS);
            proof {
                lemma_pow10_adds(
                    NUM_THREAD_DIGITS as nat,
                    (NUM_FROZEN - NUM_THREAD_DIGITS) as nat,
                );
                lemma_pow10_monotone(NUM_THREAD_DIGITS as nat, NUM_FROZEN as nat);
                lemma_pow10_step((NUM_FROZEN - NUM_THREAD_DIGITS) as nat);
            }
            if blocks > usize::MAX as Number {
                search_frozen_block::<NUM_FROZEN, NUM_DIGITS>(
                    digit_count_unfrozen,
                    bound,
                    0,
                    ten_pow(NUM_FROZEN as u32),
                )
            } else {
                let parts: Vec<Vec<Number>> = search_blocks_in_parallel::<NUM_FROZEN, NUM_DIGITS>(
                    digit_count_unfrozen,
                    bound,
                    block_len,
                    blocks as usize,
                );
                join_blocks(
                    parts,
                    Ghost(digit_count as nat),
                    Ghost(NUM_FROZEN as nat),
                    Ghost(bound as nat),
                    Ghost(block_len as nat),
                )
            }
        } else {
            search_frozen_block::<NUM_FROZEN, NUM_DIGITS>(
                digit_count_unfrozen,
                bound,
                0,
                ten_pow(NUM_FROZEN as u32),
            )
        };
        let res = sort_ascending(&gathered);
        proof {
            lemma_sorted_blocks(
                digit_count as nat,
                NUM_FROZEN as nat,
                bound as nat,
                gathered@,
                res@,
            );
        }
        res
    }
}

/// Puts the blocks that ran side by side one after the other.
fn join_blocks(
    parts: Vec<Vec<Number>>,
    Ghost(digit_count): Ghost<nat>,
    Ghost(frozen): Ghost<nat>,
    Ghost(bound): Ghost<nat>,
    Ghost(block_len): Ghost<nat>,
) -> (res: Vec<Number>)
    requires
        forall|index: int|
            0 <= index < parts@.len() ==> (#[trigger] parts@[index])@ == block_matches(
                digit_count,
                frozen,
                bound,
                (index * block_len) as nat,
                block_len,
            ),
    ensures
        res@ == block_matches(digit_count, frozen, bound, 0, (parts@.len() * block_len) as nat),
{
    let mut res: Vec<Number> = Vec::new();
    let mut parts = parts;
    let ghost all = parts@;
    let mut next: usize = 0;
    proof {
        assert(0 * block_len == 0);
    }
    while next < parts.len()
        invariant
            next <= parts@.len(),
            parts@.len() == all.len(),
            forall|index: int| next <= index < all.len() ==> #[trigger] parts@[index] == all[index],
            forall|index: int|
                0 <= index < all.len() ==> (#[trigger] all[index])@ == block_matches(
                    digit_count,
                    frozen,
                    bound,
                    (index * block_len) as nat,
                    block_len,
                ),
            res@ == block_matches(digit_count, frozen, bound, 0, (next * block_len) as nat),
        decreases parts@.len() - next,
    {
        proof {
            lemma_blocks_join(digit_count, frozen, bound, 0, (next * block_len) as nat, block_len);
            assert((next + 1) * block_len == next * block_len + block_len) by (nonlinear_arith);
            assert(next * block_len >= 0) by (nonlinear_arith);
            assert(parts@[next as int] == all[next as int]);
        }
        let mut part: Vec<Number> = Vec::new();
        std::mem::swap(&mut part, &mut parts[next]);
        res.append(&mut part);
        next = next + 1;
    }
    res
}

} // verus!
