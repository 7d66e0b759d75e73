//! The numbers of one digit count that end in the same frozen digits, and
//! why a search among them may leave out all but a window: the digit power
//! sum grows with every digit, so it lies between the sums of the least and
//! the greatest number that end in those digits.

use crate::decimal::{
    decimal_digits, is_digits, lemma_div_mod_of_parts, lemma_div_pow10_ordered,
    lemma_num_digits_unique, lemma_pow10_adds, lemma_pow10_step,
    lemma_value_concat, lemma_value_zeros, num_digits, pow10, seq_value,
};
use crate::power_sum::{
    is_disarium, lemma_low_digits_of_residue, lemma_power_sum_between,
    lemma_power_sum_of_significant, lemma_significant_digits, nines, pointwise_le, power_sum,
};
use crate::results::{
    disarium_between, disarium_of_digit_count, disarium_stepping, lemma_ascending_unique,
    lemma_disarium_between,
    lemma_disarium_stepping, on_walk, strictly_ascending,
};
use vstd::arithmetic::div_mod::{lemma_fundamental_div_mod, lemma_mod_multiples_basic};
use vstd::prelude::*;

verus! {

/// The smaller of two numbers.
pub open spec fn smaller(a: nat, b: nat) -> nat {
    if a <= b {
        a
    } else {
        b
    }
}

/// The least number with `digit_count` digits that ends in `residue`.
pub open spec fn class_min(digit_count: nat, residue: nat) -> nat {
    pow10((digit_count - 1) as nat) + residue
}

/// The greatest number with `digit_count` digits whose last `frozen` digits
/// are `residue`.
pub open spec fn class_max(digit_count: nat, frozen: nat, residue: nat) -> nat {
    (pow10(digit_count) - pow10(frozen) + residue) as nat
}

/// `x` has `digit_count` digits, and its last `frozen` digits are `residue`.
pub open spec fn in_class(x: nat, digit_count: nat, frozen: nat, residue: nat) -> bool {
    &&& pow10((digit_count - 1) as nat) <= x < pow10(digit_count)
    &&& x % pow10(frozen) == residue
}

/// `x` has `digit_count` digits, and its last `frozen` digits make one of
/// the `count` residues from `first` on.
pub open spec fn in_block(x: nat, digit_count: nat, frozen: nat, first: nat, count: nat) -> bool {
    &&& pow10((digit_count - 1) as nat) <= x < pow10(digit_count)
    &&& first <= x % pow10(frozen) < first + count
}

/// The Disarium numbers with `digit_count` digits, at most `bound`, whose
/// last `frozen` digits are `residue`, in ascending order.
pub open spec fn frozen_matches(digit_count: nat, frozen: nat, bound: nat, residue: nat) -> Seq<
    u128,
> {
    disarium_stepping(
        class_min(digit_count, residue),
        pow10(frozen),
        smaller(class_max(digit_count, frozen, residue), bound),
    )
}

/// The sequences of `count` residues from `first` on, one after the other.
pub open spec fn block_matches(
    digit_count: nat,
    frozen: nat,
    bound: nat,
    first: nat,
    count: nat,
) -> Seq<u128>
    decreases count,
{
    if count == 0 {
        Seq::empty()
    } else {
        block_matches(digit_count, frozen, bound, first, (count - 1) as nat) + frozen_matches(
            digit_count,
            frozen,
            bound,
            (first + count - 1) as nat,
        )
    }
}

/// A one in front of zeros.
pub open spec fn one_and_zeros(k: nat) -> Seq<u8> {
    Seq::new(
        k,
        |i: int|
            if i == 0 {
                1u8
            } else {
                0u8
            },
    )
}

/// `k` nines denote `10^k - 1`.
proof fn lemma_value_of_nines(k: nat)
    ensures
        seq_value(nines(k)) + 1 == pow10(k),
    decreases k,
{
    lemma_pow10_step(0);
    if k > 0 {
        lemma_value_of_nines((k - 1) as nat);
        assert(nines(k).drop_last() =~= nines((k - 1) as nat));
        lemma_pow10_step((k - 1) as nat);
    }
}

/// A one in front of `k - 1` zeros denotes `10^(k-1)`.
proof fn lemma_value_of_one_and_zeros(k: nat)
    requires
        k >= 1,
    ensures
        seq_value(one_and_zeros(k)) == pow10((k - 1) as nat),
{
    let one = seq![1u8];
    let zeros = Seq::new((k - 1) as nat, |i: int| 0u8);
    assert(one_and_zeros(k) =~= one + zeros);
    lemma_value_concat(one, zeros);
    lemma_value_zeros(zeros);
    assert(seq_value(one) == 1) by {
        reveal_with_fuel(seq_value, 2);
    }
    assert(1 * pow10((k - 1) as nat) == pow10((k - 1) as nat));
}

/// Where the numbers of a class lie, and how the two ends divide.
pub proof fn lemma_class_ends(digit_count: nat, frozen: nat, residue: nat)
    requires
        frozen < digit_count,
        residue < pow10(frozen),
    ensures
        pow10(digit_count) == pow10((digit_count - frozen) as nat) * pow10(frozen),
        pow10((digit_count - 1) as nat) == pow10((digit_count - 1 - frozen) as nat) * pow10(
            frozen,
        ),
        10 * pow10((digit_count - 1 - frozen) as nat) == pow10((digit_count - frozen) as nat),
        class_min(digit_count, residue) <= class_max(digit_count, frozen, residue),
        in_class(class_min(digit_count, residue), digit_count, frozen, residue),
        in_class(class_max(digit_count, frozen, residue), digit_count, frozen, residue),
        class_min(digit_count, residue) / pow10(frozen) == pow10(
            (digit_count - 1 - frozen) as nat,
        ),
        class_max(digit_count, frozen, residue) / pow10(frozen) == pow10(
            (digit_count - frozen) as nat,
        ) - 1,
        num_digits(class_min(digit_count, residue)) == digit_count,
        num_digits(class_max(digit_count, frozen, residue)) == digit_count,
{
    let step = pow10(frozen);
    let low = pow10((digit_count - 1 - frozen) as nat);
    let high = pow10((digit_count - frozen) as nat);
    lemma_pow10_adds((digit_count - frozen) as nat, frozen);
    lemma_pow10_adds((digit_count - 1 - frozen) as nat, frozen);
    lemma_pow10_step((digit_count - 1 - frozen) as nat);
    lemma_pow10_step(frozen);
    lemma_pow10_step((digit_count - 1) as nat);
    assert((high - 1) * step == high * step - step) by (nonlinear_arith);
    assert(low * step <= (high - 1) * step) by (nonlinear_arith)
        requires
            low <= high - 1,
            step > 0,
    ;
    lemma_div_mod_of_parts(low, residue, step);
    lemma_div_mod_of_parts((high - 1) as nat, residue, step);
    lemma_num_digits_unique(class_min(digit_count, residue), digit_count);
    lemma_num_digits_unique(class_max(digit_count, frozen, residue), digit_count);
}

/// The numbers of a class are those met on the walk from its least to its
/// greatest member in steps of `10^frozen`.
pub proof fn lemma_class_is_walk(x: nat, digit_count: nat, frozen: nat, residue: nat)
    requires
        frozen < digit_count,
        residue < pow10(frozen),
    ensures
        in_class(x, digit_count, frozen, residue) <==> x <= class_max(
            digit_count,
            frozen,
            residue,
        ) && on_walk(x, class_min(digit_count, residue), pow10(frozen)),
{
    lemma_class_ends(digit_count, frozen, residue);
    let step = pow10(frozen) as int;
    let low = pow10((digit_count - 1 - frozen) as nat) as int;
    let high = pow10((digit_count - frozen) as nat) as int;
    let least = class_min(digit_count, residue) as int;
    let q = x as int / step;
    let r = x as int % step;
    lemma_fundamental_div_mod(x as int, step);
    assert(x == step * q + r);
    assert(step * q == q * step) by (nonlinear_arith);
    if in_class(x, digit_count, frozen, residue) {
        assert(q >= low) by (nonlinear_arith)
            requires
                q * step + r >= low * step,
                r < step,
                step > 0,
        ;
        assert(q <= high - 1) by (nonlinear_arith)
            requires
                q * step + r < high * step,
                r >= 0,
                step > 0,
        ;
        assert(q * step >= low * step) by (nonlinear_arith)
            requires
                q >= low,
                step > 0,
        ;
        assert(q * step <= (high - 1) * step) by (nonlinear_arith)
            requires
                q <= high - 1,
                step > 0,
        ;
        assert((high - 1) * step == high * step - step) by (nonlinear_arith);
        assert(x - least == (q - low) * step) by (nonlinear_arith)
            requires
                x == q * step + r,
                least == low * step + r,
        ;
        lemma_mod_multiples_basic(q - low, step);
    }
    if x <= class_max(digit_count, frozen, residue) && on_walk(
        x,
        class_min(digit_count, residue),
        pow10(frozen),
    ) {
        let steps = (x - least) / step;
        lemma_fundamental_div_mod(x - least, step);
        assert(x - least == step * steps);
        assert(step * steps == steps * step) by (nonlinear_arith);
        assert(x == (low + steps) * step + residue) by (nonlinear_arith)
            requires
                x - least == steps * step,
                least == low * step + residue,
        ;
        assert(steps >= 0) by (nonlinear_arith)
            requires
                steps * step >= 0,
                step > 0,
        ;
        lemma_div_mod_of_parts((low + steps) as nat, residue, step as nat);
    }
}

/// The window of the search. A Disarium number of a class lies between the
/// digit power sums of the least and of the greatest member of the class,
/// and so between those two sums with their last `frozen` digits replaced
/// by the residue.
pub proof fn lemma_frozen_window(x: nat, digit_count: nat, tail: Seq<u8>)
    requires
        tail.len() < digit_count,
        is_digits(tail),
        in_class(x, digit_count, tail.len(), seq_value(tail)),
        is_disarium(x),
    ensures
        power_sum(class_min(digit_count, seq_value(tail))) <= x <= power_sum(
            class_max(digit_count, tail.len(), seq_value(tail)),
        ),
        (power_sum(class_min(digit_count, seq_value(tail))) / pow10(tail.len())) * pow10(
            tail.len(),
        ) + seq_value(tail) <= x,
        x <= (power_sum(class_max(digit_count, tail.len(), seq_value(tail))) / pow10(tail.len()))
            * pow10(tail.len()) + seq_value(tail),
{
    let frozen = tail.len();
    let free = (digit_count - frozen) as nat;
    let residue = seq_value(tail);
    let step = pow10(frozen);
    crate::decimal::lemma_value_bound(tail);
    lemma_class_ends(digit_count, frozen, residue);
    lemma_pow10_step((free - 1) as nat);
    let least = class_min(digit_count, residue);
    let greatest = class_max(digit_count, frozen, residue);
    // the digits of the three numbers
    let low = one_and_zeros(free) + tail;
    let high = nines(free) + tail;
    lemma_value_concat(one_and_zeros(free), tail);
    lemma_value_concat(nines(free), tail);
    lemma_value_of_one_and_zeros(free);
    lemma_value_of_nines(free);
    assert(seq_value(low) == least);
    assert(seq_value(high) == greatest) by {
        let top = seq_value(nines(free)) as int;
        assert(top * step == pow10(free) * step - step) by (nonlinear_arith)
            requires
                top + 1 == pow10(free),
        ;
    }
    assert(is_digits(low));
    assert(is_digits(high));
    assert(low[0] == 1 && high[0] == 9);
    lemma_power_sum_of_significant(low);
    lemma_power_sum_of_significant(high);
    lemma_num_digits_unique(x, digit_count);
    lemma_significant_digits(x);
    let digits = decimal_digits(x, digit_count);
    lemma_low_digits_of_residue(x, digit_count, tail);
    assert(pointwise_le(low, digits) && pointwise_le(digits, high)) by {
        assert forall|i: int| 0 <= i < digit_count implies #[trigger] low[i] <= digits[i]
            && digits[i] <= high[i] by {
            if i >= free {
                assert(digits[i] == digits.subrange(digit_count - frozen, digit_count as int)[i
                    - free]);
            }
        }
    }
    lemma_power_sum_between(x, low, high);
    // rounding the two sums to the class keeps x between them
    let floor = power_sum(least);
    let ceiling = power_sum(greatest);
    lemma_div_pow10_ordered(floor, x, frozen);
    lemma_div_pow10_ordered(x, ceiling, frozen);
    lemma_fundamental_div_mod(x as int, step as int);
    let q = x as int / (step as int);
    let below = floor as int / (step as int);
    let above = ceiling as int / (step as int);
    assert(below * step <= q * step && q * step <= above * step) by (nonlinear_arith)
        requires
            below <= q <= above,
            step > 0,
    ;
    assert(step * q == q * step) by (nonlinear_arith);
}

/// `sum` with its last `frozen` digits replaced by `residue`.
pub open spec fn rounded(sum: nat, frozen: nat, residue: nat) -> nat {
    (sum / pow10(frozen)) * pow10(frozen) + residue
}

/// Where the search of a class starts: at the digit power sum of its least
/// member, rounded to the class, or at that member if it is greater.
pub open spec fn window_start(digit_count: nat, frozen: nat, residue: nat) -> nat {
    let least = class_min(digit_count, residue);
    let from_sum = rounded(power_sum(least), frozen, residue);
    if from_sum >= least {
        from_sum
    } else {
        least
    }
}

/// Where the search of a class ends: at the digit power sum of its greatest
/// member, rounded to the class, at that member or at the bound, whichever
/// is least.
pub open spec fn window_end(digit_count: nat, frozen: nat, bound: nat, residue: nat) -> nat {
    let greatest = class_max(digit_count, frozen, residue);
    smaller(smaller(rounded(power_sum(greatest), frozen, residue), greatest), bound)
}

/// A digit power sum of a member of the class, rounded to the class, has
/// no more digits than the class.
pub proof fn lemma_rounded_sum(member: nat, digit_count: nat, frozen: nat, residue: nat)
    requires
        frozen < digit_count,
        residue < pow10(frozen),
        in_class(member, digit_count, frozen, residue),
    ensures
        power_sum(member) < pow10(digit_count),
        rounded(power_sum(member), frozen, residue) <= class_max(digit_count, frozen, residue),
        rounded(power_sum(member), frozen, residue) % pow10(frozen) == residue,
        rounded(power_sum(member), frozen, residue) / pow10(frozen) == power_sum(member) / pow10(
            frozen,
        ),
{
    lemma_class_ends(digit_count, frozen, residue);
    lemma_num_digits_unique(member, digit_count);
    crate::power_sum::lemma_power_sum_bound(member);
    let step = pow10(frozen);
    let high = pow10((digit_count - frozen) as nat);
    let sum = power_sum(member);
    crate::decimal::lemma_div_pow10_bound(sum, (digit_count - frozen) as nat, frozen);
    let q = sum / step;
    assert(q * step <= (high - 1) * step) by (nonlinear_arith)
        requires
            q <= high - 1,
            step > 0,
    ;
    assert((high - 1) * step == high * step - step) by (nonlinear_arith);
    lemma_div_mod_of_parts(q, residue, step);
}

/// The search of the window finds what a search of the whole class would.
pub proof fn lemma_window_search(digit_count: nat, tail: Seq<u8>, bound: nat)
    requires
        tail.len() < digit_count,
        is_digits(tail),
        pow10(digit_count) <= u128::MAX,
    ensures
        disarium_stepping(
            window_start(digit_count, tail.len(), seq_value(tail)),
            pow10(tail.len()),
            window_end(digit_count, tail.len(), bound, seq_value(tail)),
        ) == frozen_matches(digit_count, tail.len(), bound, seq_value(tail)),
{
    let frozen = tail.len();
    let residue = seq_value(tail);
    let step = pow10(frozen);
    crate::decimal::lemma_value_bound(tail);
    lemma_class_ends(digit_count, frozen, residue);
    let least = class_min(digit_count, residue);
    let greatest = class_max(digit_count, frozen, residue);
    let start = window_start(digit_count, frozen, residue);
    let end = window_end(digit_count, frozen, bound, residue);
    lemma_rounded_sum(least, digit_count, frozen, residue);
    lemma_class_is_walk(start, digit_count, frozen, residue);
    assert forall|x: nat|
        x <= smaller(greatest, bound) && #[trigger] on_walk(x, least, step) && is_disarium(
            x,
        ) implies start <= x <= end by {
        lemma_class_is_walk(x, digit_count, frozen, residue);
        lemma_frozen_window(x, digit_count, tail);
    }
    crate::results::lemma_stepping_narrowed(least, step, smaller(greatest, bound), start, end);
}

/// What the sequence of a class holds: exactly the Disarium numbers of the
/// class that are at most `bound`, each once, in ascending order.
pub proof fn lemma_frozen_matches(digit_count: nat, frozen: nat, bound: nat, residue: nat)
    requires
        frozen < digit_count,
        residue < pow10(frozen),
        pow10(digit_count) <= u128::MAX,
    ensures
        strictly_ascending(frozen_matches(digit_count, frozen, bound, residue)),
        forall|x: u128| #[trigger]
            frozen_matches(digit_count, frozen, bound, residue).contains(x) <==> in_class(
                x as nat,
                digit_count,
                frozen,
                residue,
            ) && x <= bound && is_disarium(x as nat),
{
    lemma_class_ends(digit_count, frozen, residue);
    lemma_pow10_step(frozen);
    let end = smaller(class_max(digit_count, frozen, residue), bound);
    lemma_disarium_stepping(class_min(digit_count, residue), pow10(frozen), end);
    assert forall|x: u128| #[trigger]
        frozen_matches(digit_count, frozen, bound, residue).contains(x) <==> in_class(
            x as nat,
            digit_count,
            frozen,
            residue,
        ) && x <= bound && is_disarium(x as nat) by {
        lemma_class_is_walk(x as nat, digit_count, frozen, residue);
    }
}

/// What a block holds: exactly the Disarium numbers of the digit count that
/// are at most `bound` and whose residue lies in the block, each once.
pub proof fn lemma_block_matches(
    digit_count: nat,
    frozen: nat,
    bound: nat,
    first: nat,
    count: nat,
)
    requires
        frozen < digit_count,
        first + count <= pow10(frozen),
        pow10(digit_count) <= u128::MAX,
    ensures
        block_matches(digit_count, frozen, bound, first, count).no_duplicates(),
        forall|x: u128| #[trigger]
            block_matches(digit_count, frozen, bound, first, count).contains(x) <==> in_block(
                x as nat,
                digit_count,
                frozen,
                first,
                count,
            ) && x <= bound && is_disarium(x as nat),
    decreases count,
{
    let whole = block_matches(digit_count, frozen, bound, first, count);
    if count > 0 {
        let residue = (first + count - 1) as nat;
        let head = block_matches(digit_count, frozen, bound, first, (count - 1) as nat);
        let last = frozen_matches(digit_count, frozen, bound, residue);
        lemma_block_matches(digit_count, frozen, bound, first, (count - 1) as nat);
        lemma_frozen_matches(digit_count, frozen, bound, residue);
        assert(whole == head + last);
        assert forall|x: u128| #[trigger]
            whole.contains(x) <==> in_block(x as nat, digit_count, frozen, first, count) && x
                <= bound && is_disarium(x as nat) by {
            if whole.contains(x) {
                let i = choose|i: int| 0 <= i < whole.len() && whole[i] == x;
                if i < head.len() {
                    assert(head[i] == x);
                    assert(head.contains(x));
                } else {
                    assert(last[i - head.len()] == x);
                    assert(last.contains(x));
                }
            }
            if head.contains(x) {
                let i = choose|i: int| 0 <= i < head.len() && head[i] == x;
                assert(whole[i] == x);
            }
            if last.contains(x) {
                let i = choose|i: int| 0 <= i < last.len() && last[i] == x;
                assert(whole[head.len() + i] == x);
            }
        }
        assert forall|i: int, j: int| 0 <= i < j < whole.len() implies whole[i] != whole[j] by {
            if j < head.len() {
                assert(head[i] == whole[i] && head[j] == whole[j]);
            } else if i >= head.len() {
                assert(last[i - head.len()] < last[j - head.len()]);
            } else {
                assert(head[i] == whole[i]);
                assert(head.contains(whole[i]));
                assert(last[j - head.len()] == whole[j]);
                assert(last.contains(whole[j]));
            }
        }
    } else {
        assert forall|x: u128| #[trigger]
            whole.contains(x) <==> in_block(x as nat, digit_count, frozen, first, count) && x
                <= bound && is_disarium(x as nat) by {
            if whole.contains(x) {
                let i = choose|i: int| 0 <= i < whole.len() && whole[i] == x;
            }
        }
    }
}

/// Blocks that follow one another make one block.
pub proof fn lemma_blocks_join(
    digit_count: nat,
    frozen: nat,
    bound: nat,
    first: nat,
    count: nat,
    more: nat,
)
    ensures
        block_matches(digit_count, frozen, bound, first, count) + block_matches(
            digit_count,
            frozen,
            bound,
            first + count,
            more,
        ) == block_matches(digit_count, frozen, bound, first, count + more),
    decreases more,
{
    let left = block_matches(digit_count, frozen, bound, first, count);
    if more == 0 {
        assert(left + Seq::<u128>::empty() =~= left);
    } else {
        let less = (more - 1) as nat;
        lemma_blocks_join(digit_count, frozen, bound, first, count, less);
        let middle = block_matches(digit_count, frozen, bound, first + count, less);
        let last = frozen_matches(digit_count, frozen, bound, (first + count + more - 1) as nat);
        assert(left + (middle + last) =~= (left + middle) + last);
    }
}

/// All the residues together, put in ascending order, are the Disarium
/// numbers of the digit count up to the bound.
pub proof fn lemma_sorted_blocks(
    digit_count: nat,
    frozen: nat,
    bound: nat,
    gathered: Seq<u128>,
    sorted: Seq<u128>,
)
    requires
        frozen < digit_count,
        pow10(digit_count) <= u128::MAX,
        gathered == block_matches(digit_count, frozen, bound, 0, pow10(frozen)),
        sorted.to_multiset() == gathered.to_multiset(),
        forall|i: int, j: int| 0 <= i < j < sorted.len() ==> sorted[i] <= sorted[j],
    ensures
        sorted == disarium_of_digit_count(digit_count, bound),
{
    let low = pow10((digit_count - 1) as nat);
    let high = smaller(pow10(digit_count), bound + 1);
    assert(disarium_of_digit_count(digit_count, bound) == disarium_between(low, high));
    let target = disarium_between(low, high);
    lemma_block_matches(digit_count, frozen, bound, 0, pow10(frozen));
    lemma_disarium_between(low, high);
    lemma_pow10_step(frozen);
    gathered.lemma_multiset_has_no_duplicates();
    sorted.lemma_multiset_has_no_duplicates_conv();
    assert forall|i: int, j: int| 0 <= i < j < sorted.len() implies #[trigger] sorted[i]
        < #[trigger] sorted[j] by {
        assert(sorted[i] <= sorted[j]);
    }
    assert forall|x: u128| #[trigger] sorted.contains(x) <==> target.contains(x) by {
        vstd::seq_lib::to_multiset_contains(sorted, x);
        vstd::seq_lib::to_multiset_contains(gathered, x);
        if pow10((digit_count - 1) as nat) <= x {
            vstd::arithmetic::div_mod::lemma_mod_bound(x as int, pow10(frozen) as int);
        }
    }
    lemma_ascending_unique(sorted, target);
}

} // verus!
