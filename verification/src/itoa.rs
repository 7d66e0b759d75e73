//! Writing a number as decimal digits into a buffer, right-aligned and
//! padded with zeros on the left. `int_to_digits` takes four digits from the
//! number at a time and reads them from a table of the hundred two-digit
//! pairs; `int_to_digits_old` takes two at a time.

use crate::decimal::{
    decimal_digits, is_digits, is_first_non_zero, lemma_decimal_digits_of_value,
    lemma_div_pow10_bound, lemma_num_digits_of_value, lemma_pow10_adds, lemma_pow10_monotone,
    lemma_pow10_step, lemma_pow10_table, lemma_value_concat, lemma_value_skips_zeros, num_digits,
    pow10, seq_value,
};
use crate::{Digit, Number};
use vstd::prelude::*;

verus! {

/// The two digits of each number below one hundred, tens first, at twice
/// the number and at the place after it.
const DEC_DIGITS_LUT: [Digit; 200] = [
    0, 0, 0, 1, 0, 2, 0, 3, 0, 4, 0, 5, 0, 6, 0, 7, 0, 8, 0, 9,
    1, 0, 1, 1, 1, 2, 1, 3, 1, 4, 1, 5, 1, 6, 1, 7, 1, 8, 1, 9,
    2, 0, 2, 1, 2, 2, 2, 3, 2, 4, 2, 5, 2, 6, 2, 7, 2, 8, 2, 9,
    3, 0, 3, 1, 3, 2, 3, 3, 3, 4, 3, 5, 3, 6, 3, 7, 3, 8, 3, 9,
    4, 0, 4, 1, 4, 2, 4, 3, 4, 4, 4, 5, 4, 6, 4, 7, 4, 8, 4, 9,
    5, 0, 5, 1, 5, 2, 5, 3, 5, 4, 5, 5, 5, 6, 5, 7, 5, 8, 5, 9,
    6, 0, 6, 1, 6, 2, 6, 3, 6, 4, 6, 5, 6, 6, 6, 7, 6, 8, 6, 9,
    7, 0, 7, 1, 7, 2, 7, 3, 7, 4, 7, 5, 7, 6, 7, 7, 7, 8, 7, 9,
    8, 0, 8, 1, 8, 2, 8, 3, 8, 4, 8, 5, 8, 6, 8, 7, 8, 8, 8, 9,
    9, 0, 9, 1, 9, 2, 9, 3, 9, 4, 9, 5, 9, 6, 9, 7, 9, 8, 9, 9,
];

/// The two digits of each number below one hundred, tens first.
const DIGIT_PAIRS: [[Digit; 2]; 100] = [
    [0, 0], [0, 1], [0, 2], [0, 3], [0, 4], [0, 5], [0, 6], [0, 7], [0, 8], [0, 9],
    [1, 0], [1, 1], [1, 2], [1, 3], [1, 4], [1, 5], [1, 6], [1, 7], [1, 8], [1, 9],
    [2, 0], [2, 1], [2, 2], [2, 3], [2, 4], [2, 5], [2, 6], [2, 7], [2, 8], [2, 9],
    [3, 0], [3, 1], [3, 2], [3, 3], [3, 4], [3, 5], [3, 6], [3, 7], [3, 8], [3, 9],
    [4, 0], [4, 1], [4, 2], [4, 3], [4, 4], [4, 5], [4, 6], [4, 7], [4, 8], [4, 9],
    [5, 0], [5, 1], [5, 2], [5, 3], [5, 4], [5, 5], [5, 6], [5, 7], [5, 8], [5, 9],
    [6, 0], [6, 1], [6, 2], [6, 3], [6, 4], [6, 5], [6, 6], [6, 7], [6, 8], [6, 9],
    [7, 0], [7, 1], [7, 2], [7, 3], [7, 4], [7, 5], [7, 6], [7, 7], [7, 8], [7, 9],
    [8, 0], [8, 1], [8, 2], [8, 3], [8, 4], [8, 5], [8, 6], [8, 7], [8, 8], [8, 9],
    [9, 0], [9, 1], [9, 2], [9, 3], [9, 4], [9, 5], [9, 6], [9, 7], [9, 8], [9, 9],
];

/// What the two tables hold, entry by entry.
proof fn lemma_tables(i: int)
    requires
        0 <= i < 100,
    ensures
        DEC_DIGITS_LUT[2 * i] == i / 10,
        DEC_DIGITS_LUT[2 * i + 1] == i % 10,
        DIGIT_PAIRS[i][0] == i / 10,
        DIGIT_PAIRS[i][1] == i % 10,
{
    assert(i == 0 || i == 1 || i == 2 || i == 3 || i == 4 || i == 5 || i == 6 || i == 7
        || i == 8 || i == 9 || i == 10 || i == 11 || i == 12 || i == 13 || i == 14 || i == 15
        || i == 16 || i == 17 || i == 18 || i == 19 || i == 20 || i == 21 || i == 22 || i == 23
        || i == 24 || i == 25 || i == 26 || i == 27 || i == 28 || i == 29 || i == 30 || i == 31
        || i == 32 || i == 33 || i == 34 || i == 35 || i == 36 || i == 37 || i == 38 || i == 39
        || i == 40 || i == 41 || i == 42 || i == 43 || i == 44 || i == 45 || i == 46 || i == 47
        || i == 48 || i == 49 || i == 50 || i == 51 || i == 52 || i == 53 || i == 54 || i == 55
        || i == 56 || i == 57 || i == 58 || i == 59 || i == 60 || i == 61 || i == 62 || i == 63
        || i == 64 || i == 65 || i == 66 || i == 67 || i == 68 || i == 69 || i == 70 || i == 71
        || i == 72 || i == 73 || i == 74 || i == 75 || i == 76 || i == 77 || i == 78 || i == 79
        || i == 80 || i == 81 || i == 82 || i == 83 || i == 84 || i == 85 || i == 86 || i == 87
        || i == 88 || i == 89 || i == 90 || i == 91 || i == 92 || i == 93 || i == 94 || i == 95
        || i == 96 || i == 97 || i == 98 || i == 99);
}

/// The two digits of `pair`, tens first, read from the first table.
fn lut_pair(pair: usize) -> (digits: (Digit, Digit))
    requires
        pair < 100,
    ensures
        digits.0 == pair / 10,
        digits.1 == pair % 10,
{
    proof {
        lemma_tables(pair as int);
    }
    let at: usize = pair * 2;
    (DEC_DIGITS_LUT[at], DEC_DIGITS_LUT[at + 1])
}

/// Reads the second table: the tens of `i` at `which == 0`, else its units.
fn pair_digit(i: usize, which: usize) -> (d: Digit)
    requires
        i < 100,
        which < 2,
    ensures
        d == if which == 0 {
            i / 10
        } else {
            i % 10
        },
        d <= 9,
{
    proof {
        lemma_tables(i as int);
    }
    DIGIT_PAIRS[i][which]
}

/// The value of a run of at most four digits, written out.
spec fn run_value(run: Seq<u8>) -> nat {
    if run.len() == 0 {
        0
    } else if run.len() == 1 {
        run[0] as nat
    } else if run.len() == 2 {
        (10 * run[0] + run[1]) as nat
    } else if run.len() == 3 {
        (100 * run[0] + 10 * run[1] + run[2]) as nat
    } else {
        (1000 * run[0] + 100 * run[1] + 10 * run[2] + run[3]) as nat
    }
}

/// The power of ten that a run of at most four digits spans.
spec fn run_scale(k: nat) -> nat {
    if k == 0 {
        1
    } else if k == 1 {
        10
    } else if k == 2 {
        100
    } else if k == 3 {
        1000
    } else {
        10000
    }
}

/// While a number is written from the right: the digits from `from` on are
/// in place, and `rest` holds what is still to come in front of them.
#[verifier::opaque]
spec fn suffix_written(buf: Seq<u8>, from: int, rest: nat, whole: nat) -> bool {
    &&& 0 <= from <= buf.len()
    &&& is_digits(buf.subrange(from, buf.len() as int))
    &&& rest * pow10((buf.len() - from) as nat) + seq_value(buf.subrange(from, buf.len() as int))
        == whole
}

/// The two short forms agree with the general ones.
proof fn lemma_run_value(run: Seq<u8>)
    requires
        run.len() <= 4,
    ensures
        seq_value(run) == run_value(run),
        pow10(run.len()) == run_scale(run.len()),
    decreases run.len(),
{
    lemma_pow10_table();
    if run.len() > 0 {
        lemma_run_value(run.drop_last());
    }
}

/// Before the first digit is written, everything is still to come.
proof fn lemma_nothing_written(buf: Seq<u8>, whole: nat)
    ensures
        suffix_written(buf, buf.len() as int, whole, whole),
{
    reveal(suffix_written);
    lemma_pow10_step(0);
    assert(buf.subrange(buf.len() as int, buf.len() as int) =~= Seq::<u8>::empty());
    assert(whole * pow10(0) == whole) by (nonlinear_arith)
        requires
            pow10(0) == 1,
    ;
}

/// One step of writing from the right: `run` is put in front of the digits
/// that were in place before.
proof fn lemma_run_written(
    before: Seq<u8>,
    after: Seq<u8>,
    from: int,
    run: Seq<u8>,
    rest_before: nat,
    rest_after: nat,
    whole: nat,
)
    requires
        suffix_written(before, from, rest_before, whole),
        run.len() <= 4,
        is_digits(run),
        run_placed(before, after, from, run),
        rest_before == rest_after * run_scale(run.len()) + run_value(run),
    ensures
        suffix_written(after, from - run.len(), rest_after, whole),
{
    reveal(suffix_written);
    let len = after.len() as int;
    let low = from - run.len();
    let tail = before.subrange(from, len);
    assert(after.subrange(low, len) =~= run + tail);
    lemma_value_concat(run, tail);
    lemma_run_value(run);
    lemma_pow10_adds(run.len(), (len - from) as nat);
    let unit = pow10((len - from) as nat) as int;
    let width = pow10(run.len()) as int;
    let rest = rest_after as int;
    let block = seq_value(run) as int;
    assert((rest * width + block) * unit == rest * (width * unit) + block * unit)
        by (nonlinear_arith);
    assert(pow10((len - low) as nat) == width * unit);
    assert forall|j: int| 0 <= j < len - low implies #[trigger] after.subrange(low, len)[j]
        <= 9 by {
        if j >= run.len() {
            assert(after[low + j] == tail[j - run.len()]);
        }
    }
}

/// The room that is left in front of the digits in place holds what is
/// still to come.
proof fn lemma_room(e: nat, rest: nat, k: nat)
    requires
        rest < pow10(e),
        rest >= run_scale((k - 1) as nat),
        1 <= k <= 4,
    ensures
        e >= k,
        rest / run_scale(k) < pow10((e - k) as nat),
{
    lemma_pow10_table();
    lemma_run_value(Seq::new(k, |i: int| 0u8));
    lemma_run_value(Seq::new((k - 1) as nat, |i: int| 0u8));
    if e < k {
        lemma_pow10_monotone(e, (k - 1) as nat);
    }
    lemma_div_pow10_bound(rest, (e - k) as nat, k);
}

/// The buffer once the whole number is in place behind zeros.
proof fn lemma_all_written(buf: Seq<u8>, first: int, whole: nat)
    requires
        suffix_written(buf, first, 0, whole),
        forall|j: int| 0 <= j < first ==> #[trigger] buf[j] == 0,
        first < buf.len() ==> buf[first] != 0,
    ensures
        buf == decimal_digits(whole, buf.len()),
        is_first_non_zero(buf, first),
        first + num_digits(whole) == buf.len(),
{
    reveal(suffix_written);
    let len = buf.len() as int;
    assert(0 * pow10((len - first) as nat) == 0);
    assert forall|i: int| 0 <= i < len implies #[trigger] buf[i] <= 9 by {
        if i >= first {
            assert(buf[i] == buf.subrange(first, len)[i - first]);
        }
    }
    lemma_value_skips_zeros(buf, first);
    lemma_decimal_digits_of_value(buf);
    lemma_num_digits_of_value(buf, first);
}

/// Puts zeros in front of the digits that start at `first`.
fn pad_with_zeros(buf: &mut [Digit], first: usize)
    requires
        first <= old(buf)@.len(),
    ensures
        final(buf)@.len() == old(buf)@.len(),
        forall|j: int| 0 <= j < first ==> #[trigger] final(buf)@[j] == 0,
        forall|j: int| first <= j < old(buf)@.len() ==> #[trigger] final(buf)@[j] == old(buf)@[j],
{
    let ghost before = buf@;
    let len: usize = buf.len();
    let mut j: usize = 0;
    while j < first
        invariant
            buf@.len() == len,
            before.len() == len,
            j <= first <= len,
            forall|i: int| 0 <= i < j ==> #[trigger] buf@[i] == 0,
            forall|i: int| first <= i < len ==> #[trigger] buf@[i] == before[i],
        decreases first - j,
    {
        buf[j] = 0;
        j += 1;
    }
}

/// Writing in front of the digits in place leaves them as they are.
proof fn lemma_suffix_kept(before: Seq<u8>, after: Seq<u8>, from: int, rest: nat, whole: nat)
    requires
        suffix_written(before, from, rest, whole),
        after.len() == before.len(),
        forall|j: int| from <= j < before.len() ==> #[trigger] after[j] == before[j],
    ensures
        suffix_written(after, from, rest, whole),
{
    reveal(suffix_written);
    assert(after.subrange(from, after.len() as int) =~= before.subrange(
        from,
        before.len() as int,
    ));
}

/// The digits of a number below `10^k`, for `k` from one to four: the
/// pair of the hundreds in front of the pair of the rest.
spec fn block_digits(block: nat, k: nat) -> Seq<u8> {
    if k == 1 {
        seq![block as u8]
    } else if k == 2 {
        seq![(block / 10) as u8, (block % 10) as u8]
    } else if k == 3 {
        seq![(block / 100) as u8, ((block % 100) / 10) as u8, ((block % 100) % 10) as u8]
    } else {
        seq![
            ((block / 100) / 10) as u8,
            ((block / 100) % 10) as u8,
            ((block % 100) / 10) as u8,
            ((block % 100) % 10) as u8,
        ]
    }
}

/// `after` is `before` with `run` written so that it ends before `from`.
spec fn run_placed(before: Seq<u8>, after: Seq<u8>, from: int, run: Seq<u8>) -> bool {
    &&& after.len() == before.len()
    &&& run.len() <= from <= before.len()
    &&& forall|j: int|
        0 <= j < after.len() ==> #[trigger] after[j] == if from - run.len() <= j < from {
            run[j - (from - run.len())]
        } else {
            before[j]
        }
}

/// The digits of a block denote the block, and start with a digit other
/// than zero where the block has that many digits.
proof fn lemma_block_digits(block: nat, k: nat)
    requires
        1 <= k <= 4,
        block < run_scale(k),
    ensures
        block_digits(block, k).len() == k,
        is_digits(block_digits(block, k)),
        run_value(block_digits(block, k)) == block,
        block >= run_scale((k - 1) as nat) ==> block_digits(block, k)[0] != 0,
{
    let run = block_digits(block, k);
    let high = block / 100;
    let low = block % 100;
    assert(block == 100 * high + low);
    assert(high == 10 * (high / 10) + high % 10);
    assert(low == 10 * (low / 10) + low % 10);
    if k == 1 {
        assert(run[0] == block);
    } else if k == 2 {
        assert(run[0] == block / 10 && run[1] == block % 10);
    } else if k == 3 {
        assert(run[0] == high && run[1] == low / 10 && run[2] == low % 10);
    } else {
        assert(run[0] == high / 10 && run[1] == high % 10);
        assert(run[2] == low / 10 && run[3] == low % 10);
    }
}

/// Writes the four digits of `block` at `at` and the three places after it.
fn put_four(buf: &mut [Digit], at: usize, block: usize)
    requires
        block < 10000,
        at + 4 <= old(buf)@.len(),
    ensures
        run_placed(old(buf)@, final(buf)@, at + 4, block_digits(block as nat, 4)),
{
    let high: (Digit, Digit) = lut_pair(block / 100);
    let low: (Digit, Digit) = lut_pair(block % 100);
    buf[at] = high.0;
    buf[at + 1] = high.1;
    buf[at + 2] = low.0;
    buf[at + 3] = low.1;
}

/// Writes the three digits of `block` at `at` and the two places after it.
fn put_three(buf: &mut [Digit], at: usize, block: usize)
    requires
        block < 1000,
        at + 3 <= old(buf)@.len(),
    ensures
        run_placed(old(buf)@, final(buf)@, at + 3, block_digits(block as nat, 3)),
{
    let hundreds: usize = block / 100;
    let low: (Digit, Digit) = lut_pair(block % 100);
    buf[at] = hundreds as Digit;
    buf[at + 1] = low.0;
    buf[at + 2] = low.1;
}

/// Writes the two digits of `block` at `at` and the place after it.
fn put_two(buf: &mut [Digit], at: usize, block: usize)
    requires
        block < 100,
        at + 2 <= old(buf)@.len(),
    ensures
        run_placed(old(buf)@, final(buf)@, at + 2, block_digits(block as nat, 2)),
{
    let pair: (Digit, Digit) = lut_pair(block);
    buf[at] = pair.0;
    buf[at + 1] = pair.1;
}

/// Writes the one digit `block` at `at`.
fn put_one(buf: &mut [Digit], at: usize, block: usize)
    requires
        block < 10,
        at + 1 <= old(buf)@.len(),
    ensures
        run_placed(old(buf)@, final(buf)@, at + 1, block_digits(block as nat, 1)),
{
    buf[at] = block as Digit;
}

/// One block of at most four digits has been written in front of the
/// digits in place.
proof fn lemma_block_written(
    before: Seq<u8>,
    after: Seq<u8>,
    from: int,
    k: nat,
    rest_before: nat,
    whole: nat,
)
    requires
        suffix_written(before, from, rest_before, whole),
        1 <= k <= 4,
        run_placed(before, after, from, block_digits(rest_before % run_scale(k), k)),
    ensures
        suffix_written(after, from - k, rest_before / run_scale(k), whole),
        rest_before < run_scale(k) && rest_before >= run_scale((k - 1) as nat) ==> after[from
            - k] != 0,
{
    let block = rest_before % run_scale(k);
    lemma_block_digits(block, k);
    lemma_run_written(
        before,
        after,
        from,
        block_digits(block, k),
        rest_before,
        rest_before / run_scale(k),
        whole,
    );
}

/// Writes `n` into `buf` in decimal, right-aligned, with zeros in front.
/// Returns the index of the first digit that is not zero, or the length of
/// the buffer when `n` is zero. Four digits are taken from `n` at a time.
pub fn int_to_digits(n: Number, buf: &mut [Digit]) -> (first: usize)
    requires
        n < pow10(old(buf)@.len()),
    ensures
        final(buf)@ == decimal_digits(n as nat, old(buf)@.len()),
        is_first_non_zero(final(buf)@, first as int),
        first + num_digits(n as nat) == old(buf)@.len(),
{
    let len: usize = buf.len();
    let mut rest: Number = n;
    let mut curr: usize = len;
    proof {
        lemma_nothing_written(buf@, n as nat);
    }
    while rest >= 10_000
        invariant
            buf@.len() == len,
            curr <= len,
            rest < pow10(curr as nat),
            suffix_written(buf@, curr as int, rest as nat, n as nat),
            rest == 0 ==> curr == len,
        decreases rest,
    {
        let ghost before = buf@;
        proof {
            lemma_room(curr as nat, rest as nat, 4);
        }
        let rem: usize = (rest % 10_000) as usize;
        curr = curr - 4;
        put_four(buf, curr, rem);
        proof {
            lemma_block_written(before, buf@, curr + 4, 4, rest as nat, n as nat);
        }
        rest = rest / 10_000;
    }
    let ghost before = buf@;
    if rest >= 100 {
        let rem: usize = rest as usize;
        if rem >= 1000 {
            proof {
                lemma_room(curr as nat, rest as nat, 4);
            }
            curr = curr - 4;
            put_four(buf, curr, rem);
            proof {
                lemma_block_written(before, buf@, curr + 4, 4, rest as nat, n as nat);
            }
        } else {
            proof {
                lemma_room(curr as nat, rest as nat, 3);
            }
            curr = curr - 3;
            put_three(buf, curr, rem);
            proof {
                lemma_block_written(before, buf@, curr + 3, 3, rest as nat, n as nat);
            }
        }
    } else if rest < 10 {
        if rest > 0 {
            proof {
                lemma_room(curr as nat, rest as nat, 1);
            }
            curr = curr - 1;
            put_one(buf, curr, rest as usize);
            proof {
                lemma_block_written(before, buf@, curr + 1, 1, rest as nat, n as nat);
            }
        }
    } else {
        proof {
            lemma_room(curr as nat, rest as nat, 2);
        }
        curr = curr - 2;
        put_two(buf, curr, rest as usize);
        proof {
            lemma_block_written(before, buf@, curr + 2, 2, rest as nat, n as nat);
        }
    }
    assert(suffix_written(buf@, curr as int, 0, n as nat));
    assert(curr < len ==> buf@[curr as int] != 0);
    let ghost written = buf@;
    pad_with_zeros(buf, curr);
    proof {
        lemma_suffix_kept(written, buf@, curr as int, 0, n as nat);
        lemma_all_written(buf@, curr as int, n as nat);
    }
    curr
}

/// As [`int_to_digits`], taking two digits from `n` at a time.
pub fn int_to_digits_old(n: Number, buf: &mut [Digit]) -> (first: usize)
    requires
        n < pow10(old(buf)@.len()),
    ensures
        final(buf)@ == decimal_digits(n as nat, old(buf)@.len()),
        is_first_non_zero(final(buf)@, first as int),
        first + num_digits(n as nat) == old(buf)@.len(),
{
    let len: usize = buf.len();
    let mut rest: Number = n;
    let mut i: usize = len;
    proof {
        lemma_nothing_written(buf@, n as nat);
    }
    while rest >= 100 && i >= 2
        invariant
            buf@.len() == len,
            i <= len,
            rest < pow10(i as nat),
            suffix_written(buf@, i as int, rest as nat, n as nat),
            rest == 0 ==> i == len,
        decreases rest,
    {
        let ghost before = buf@;
        proof {
            lemma_room(i as nat, rest as nat, 2);
        }
        let pair: usize = (rest % 100) as usize;
        i = i - 2;
        buf[i] = pair_digit(pair, 0);
        buf[i + 1] = pair_digit(pair, 1);
        proof {
            lemma_block_written(before, buf@, i + 2, 2, rest as nat, n as nat);
        }
        rest = rest / 100;
    }
    let ghost before = buf@;
    proof {
        if rest >= 100 {
            lemma_pow10_table();
            lemma_pow10_monotone(i as nat, 1);
        }
    }
    if rest >= 10 {
        proof {
            lemma_room(i as nat, rest as nat, 2);
        }
        i = i - 2;
        buf[i] = (rest / 10) as Digit;
        buf[i + 1] = (rest % 10) as Digit;
        proof {
            lemma_block_written(before, buf@, i + 2, 2, rest as nat, n as nat);
        }
    } else if rest > 0 {
        proof {
            lemma_room(i as nat, rest as nat, 1);
        }
        i = i - 1;
        buf[i] = rest as Digit;
        proof {
            lemma_block_written(before, buf@, i + 1, 1, rest as nat, n as nat);
        }
    }
    assert(suffix_written(buf@, i as int, 0, n as nat));
    assert(i < len ==> buf@[i as int] != 0);
    let ghost written = buf@;
    pad_with_zeros(buf, i);
    proof {
        lemma_suffix_kept(written, buf@, i as int, 0, n as nat);
        lemma_all_written(buf@, i as int, n as nat);
    }
    i
}

} // verus!
