//! Positional decimal notation as mathematics: powers of ten, the number of
//! digits of a natural number, and digit sequences written most significant
//! digit first.

use vstd::arithmetic::div_mod::{
    lemma_div_is_ordered, lemma_fundamental_div_mod, lemma_fundamental_div_mod_converse,
};
use vstd::arithmetic::mul::lemma_mul_inequality;
use vstd::arithmetic::power::{lemma_pow_adds, lemma_pow_positive, pow};
use crate::Number;
use vstd::prelude::*;

verus! {

/// Ten to the power `e`.
pub open spec fn pow10(e: nat) -> nat {
    pow(10, e) as nat
}

/// How many decimal digits `n` has; zero has none.
pub open spec fn num_digits(n: nat) -> nat
    decreases n,
{
    if n == 0 {
        0
    } else {
        1 + num_digits(n / 10)
    }
}

/// Every entry is a decimal digit.
pub open spec fn is_digits(s: Seq<u8>) -> bool {
    forall|i: int| 0 <= i < s.len() ==> #[trigger] s[i] <= 9
}

/// The number that a digit sequence denotes, most significant digit first.
pub open spec fn seq_value(s: Seq<u8>) -> nat
    decreases s.len(),
{
    if s.len() == 0 {
        0
    } else {
        10 * seq_value(s.drop_last()) + s.last() as nat
    }
}

/// The last `width` decimal digits of `n`, most significant first, padded
/// with zeros on the left.
pub open spec fn decimal_digits(n: nat, width: nat) -> Seq<u8>
    decreases width,
{
    if width == 0 {
        Seq::empty()
    } else {
        decimal_digits(n / 10, (width - 1) as nat).push((n % 10) as u8)
    }
}

/// `i` is where the leading zeros of `s` end: the least index that holds a
/// digit other than zero, or the length of `s` when there is none.
pub open spec fn is_first_non_zero(s: Seq<u8>, i: int) -> bool {
    &&& 0 <= i <= s.len()
    &&& forall|j: int| 0 <= j < i ==> #[trigger] s[j] == 0
    &&& i < s.len() ==> s[i] != 0
}

/// How the powers of ten unfold.
pub proof fn lemma_pow10_step(e: nat)
    ensures
        pow10(0) == 1,
        pow10(e + 1) == 10 * pow10(e),
        pow10(e) > 0,
{
    reveal(pow);
    lemma_pow_positive(10, e);
    lemma_pow_positive(10, e + 1);
    assert(pow(10, 0) == 1);
    assert(pow(10, e + 1) == 10 * pow(10, e));
}

/// A larger exponent gives a power of ten that is no smaller.
pub proof fn lemma_pow10_monotone(a: nat, b: nat)
    requires
        a <= b,
    ensures
        pow10(a) <= pow10(b),
    decreases b - a,
{
    if a < b {
        lemma_pow10_monotone(a, (b - 1) as nat);
        lemma_pow10_step((b - 1) as nat);
    }
}

/// Exponents add where powers of ten multiply.
pub proof fn lemma_pow10_adds(a: nat, b: nat)
    ensures
        pow10(a + b) == pow10(a) * pow10(b),
{
    lemma_pow_adds(10, a, b);
    lemma_pow_positive(10, a);
    lemma_pow_positive(10, b);
    lemma_pow_positive(10, a + b);
}

/// Ten to the 38th is the largest power of ten below 2^128.
pub proof fn lemma_pow10_fits(e: nat)
    requires
        e <= 38,
    ensures
        pow10(e) <= 100000000000000000000000000000000000000,
        pow10(e) <= u128::MAX,
{
    lemma_pow10_table();
    lemma_pow10_monotone(e, 38);
}

/// The powers of ten that the search reads off as literals.
pub proof fn lemma_pow10_table()
    ensures
        pow10(0) == 1,
        pow10(1) == 10,
        pow10(2) == 100,
        pow10(3) == 1000,
        pow10(4) == 10000,
        pow10(25) == 10000000000000000000000000,
        pow10(38) == 100000000000000000000000000000000000000,
{
    lemma_pow10_step(0);
    lemma_pow10_step(1);
    lemma_pow10_step(2);
    lemma_pow10_step(3);
    lemma_pow10_step(4);
    lemma_pow10_adds(4, 4);
    lemma_pow10_adds(8, 8);
    lemma_pow10_adds(16, 8);
    lemma_pow10_adds(24, 1);
    lemma_pow10_adds(24, 8);
    lemma_pow10_adds(32, 4);
    lemma_pow10_adds(36, 2);
    assert(pow10(8) == 100000000) by (nonlinear_arith)
        requires
            pow10(4) == 10000,
            pow10(8) == pow10(4) * pow10(4),
    ;
    assert(pow10(16) == 10000000000000000) by (nonlinear_arith)
        requires
            pow10(8) == 100000000,
            pow10(16) == pow10(8) * pow10(8),
    ;
    assert(pow10(24) == 1000000000000000000000000) by (nonlinear_arith)
        requires
            pow10(8) == 100000000,
            pow10(16) == 10000000000000000,
            pow10(24) == pow10(16) * pow10(8),
    ;
    assert(pow10(25) == 10000000000000000000000000) by (nonlinear_arith)
        requires
            pow10(24) == 1000000000000000000000000,
            pow10(1) == 10,
            pow10(25) == pow10(24) * pow10(1),
    ;
    assert(pow10(32) == 100000000000000000000000000000000) by (nonlinear_arith)
        requires
            pow10(24) == 1000000000000000000000000,
            pow10(8) == 100000000,
            pow10(32) == pow10(24) * pow10(8),
    ;
    assert(pow10(36) == 1000000000000000000000000000000000000) by (nonlinear_arith)
        requires
            pow10(32) == 100000000000000000000000000000000,
            pow10(4) == 10000,
            pow10(36) == pow10(32) * pow10(4),
    ;
    assert(pow10(38) == 100000000000000000000000000000000000000) by (nonlinear_arith)
        requires
            pow10(36) == 1000000000000000000000000000000000000,
            pow10(2) == 100,
            pow10(38) == pow10(36) * pow10(2),
    ;
}

/// Dividing by a power of ten drops that many digits: a number below
/// `10^(a + b)` divided by `10^b` is below `10^a`.
pub proof fn lemma_div_pow10_bound(n: nat, a: nat, b: nat)
    requires
        n < pow10(a + b),
    ensures
        n / pow10(b) < pow10(a),
{
    lemma_pow10_adds(a, b);
    lemma_pow10_step(b);
    let d = pow10(b) as int;
    let q = n as int / d;
    lemma_fundamental_div_mod(n as int, d);
    if q >= pow10(a) {
        lemma_mul_inequality(pow10(a) as int, q, d);
        assert(d * q == q * d) by (nonlinear_arith);
    }
}

/// A number with `k` digits lies between `10^(k-1)` and `10^k`.
pub proof fn lemma_num_digits_bounds(n: nat)
    ensures
        n < pow10(num_digits(n)),
        n > 0 ==> pow10((num_digits(n) - 1) as nat) <= n,
    decreases n,
{
    if n == 0 {
        lemma_pow10_step(0);
    } else {
        lemma_num_digits_bounds(n / 10);
        lemma_pow10_step(num_digits(n / 10));
        if n / 10 > 0 {
            lemma_pow10_step((num_digits(n / 10) - 1) as nat);
        } else {
            lemma_pow10_step(0);
        }
    }
}

/// The interval between two consecutive powers of ten fixes the digit count.
pub proof fn lemma_num_digits_unique(n: nat, k: nat)
    requires
        k >= 1,
        pow10((k - 1) as nat) <= n < pow10(k),
    ensures
        num_digits(n) == k,
{
    lemma_num_digits_bounds(n);
    lemma_pow10_step((k - 1) as nat);
    let d = num_digits(n);
    assert(n > 0);
    if d < k {
        lemma_pow10_monotone(d, (k - 1) as nat);
    } else if d > k {
        lemma_pow10_monotone(k, (d - 1) as nat);
    }
}

/// A number below `10^k` has at most `k` digits.
pub proof fn lemma_num_digits_at_most(n: nat, k: nat)
    requires
        n < pow10(k),
    ensures
        num_digits(n) <= k,
{
    lemma_num_digits_bounds(n);
    let d = num_digits(n);
    if d > k {
        lemma_pow10_monotone(k, (d - 1) as nat);
    }
}

/// `k` decimal digits denote a number below `10^k`.
pub proof fn lemma_value_bound(s: Seq<u8>)
    requires
        is_digits(s),
    ensures
        seq_value(s) < pow10(s.len()),
    decreases s.len(),
{
    if s.len() == 0 {
        lemma_pow10_step(0);
    } else {
        lemma_value_bound(s.drop_last());
        lemma_pow10_step((s.len() - 1) as nat);
    }
}

/// The value of two sequences written one after the other.
pub proof fn lemma_value_concat(a: Seq<u8>, b: Seq<u8>)
    ensures
        seq_value(a + b) == seq_value(a) * pow10(b.len()) + seq_value(b),
    decreases b.len(),
{
    if b.len() == 0 {
        assert(a + b =~= a);
        lemma_pow10_step(0);
        assert(seq_value(a) * pow10(0) == seq_value(a)) by (nonlinear_arith)
            requires
                pow10(0) == 1,
        ;
    } else {
        let b0 = b.drop_last();
        assert((a + b).drop_last() =~= a + b0);
        assert((a + b).last() == b.last());
        lemma_value_concat(a, b0);
        lemma_pow10_step(b0.len());
        let va = seq_value(a) as int;
        let p = pow10(b0.len()) as int;
        assert(pow10(b.len()) == 10 * p);
        assert(seq_value(a + b0) == va * p + seq_value(b0));
        assert(va * (10 * p) == 10 * (va * p)) by (nonlinear_arith);
        assert(seq_value(a + b) == 10 * (va * p + seq_value(b0)) + b.last());
        assert(seq_value(a) * pow10(b.len()) == va * (10 * p));
    }
}

/// Writing digit `d` at index `i` changes the value by the difference of the
/// two digits at that decimal place.
pub proof fn lemma_value_update(s: Seq<u8>, i: int, d: u8)
    requires
        0 <= i < s.len(),
    ensures
        seq_value(s.update(i, d)) + s[i] * pow10((s.len() - 1 - i) as nat) == seq_value(s) + d
            * pow10((s.len() - 1 - i) as nat),
    decreases s.len(),
{
    let t = s.update(i, d);
    if i == s.len() - 1 {
        assert(t.drop_last() =~= s.drop_last());
        lemma_pow10_step(0);
        let unit = pow10((s.len() - 1 - i) as nat);
        assert(s[i] * unit == s[i] && d * unit == d) by (nonlinear_arith)
            requires
                unit == 1,
        ;
    } else {
        let s0 = s.drop_last();
        assert(t.drop_last() =~= s0.update(i, d));
        assert(t.last() == s.last());
        lemma_value_update(s0, i, d);
        let e = (s.len() - 2 - i) as nat;
        lemma_pow10_step(e);
        let p = pow10(e) as int;
        let old_digit = s[i] as int;
        let new_digit = d as int;
        assert(s0[i] == s[i]);
        assert(pow10((s.len() - 1 - i) as nat) == 10 * p);
        assert(pow10((s0.len() - 1 - i) as nat) == p);
        assert(seq_value(s0.update(i, d)) + old_digit * p == seq_value(s0) + new_digit * p);
        assert(old_digit * (10 * p) == 10 * (old_digit * p)) by (nonlinear_arith);
        assert(new_digit * (10 * p) == 10 * (new_digit * p)) by (nonlinear_arith);
    }
}

/// Zeros denote zero.
pub proof fn lemma_value_zeros(s: Seq<u8>)
    requires
        forall|j: int| 0 <= j < s.len() ==> #[trigger] s[j] == 0,
    ensures
        seq_value(s) == 0,
    decreases s.len(),
{
    if s.len() > 0 {
        lemma_value_zeros(s.drop_last());
    }
}

/// Leading zeros do not change the value.
pub proof fn lemma_value_skips_zeros(s: Seq<u8>, i: int)
    requires
        0 <= i <= s.len(),
        forall|j: int| 0 <= j < i ==> #[trigger] s[j] == 0,
    ensures
        seq_value(s) == seq_value(s.subrange(i, s.len() as int)),
{
    let head = s.subrange(0, i);
    let tail = s.subrange(i, s.len() as int);
    assert(s =~= head + tail);
    lemma_value_concat(head, tail);
    lemma_value_zeros(head);
    assert(0 * pow10(tail.len()) == 0);
}

/// The decimal digits at a width are that many decimal digits.
pub proof fn lemma_decimal_digits_shape(n: nat, width: nat)
    ensures
        decimal_digits(n, width).len() == width,
        is_digits(decimal_digits(n, width)),
    decreases width,
{
    if width > 0 {
        lemma_decimal_digits_shape(n / 10, (width - 1) as nat);
    }
}

/// Reading back the digits of a number that fits the width gives the number.
pub proof fn lemma_value_of_decimal_digits(n: nat, width: nat)
    requires
        n < pow10(width),
    ensures
        seq_value(decimal_digits(n, width)) == n,
    decreases width,
{
    if width == 0 {
        lemma_pow10_step(0);
    } else {
        let w = (width - 1) as nat;
        lemma_pow10_step(w);
        lemma_decimal_digits_shape(n / 10, w);
        lemma_value_of_decimal_digits(n / 10, w);
        let s = decimal_digits(n, width);
        assert(s.drop_last() =~= decimal_digits(n / 10, w));
    }
}

/// A digit sequence is the decimal representation of its own value: two
/// digit sequences of one length and one value are the same sequence.
pub proof fn lemma_decimal_digits_of_value(s: Seq<u8>)
    requires
        is_digits(s),
    ensures
        decimal_digits(seq_value(s), s.len()) == s,
    decreases s.len(),
{
    if s.len() == 0 {
        assert(decimal_digits(seq_value(s), 0) =~= s);
    } else {
        let v = seq_value(s);
        let head = s.drop_last();
        lemma_decimal_digits_of_value(head);
        assert(s.last() <= 9);
        assert(v / 10 == seq_value(head));
        assert(v % 10 == s.last());
        assert(decimal_digits(v, s.len()) =~= s);
    }
}

/// A sequence that starts with a digit other than zero has as many digits as
/// its value.
pub proof fn lemma_num_digits_of_significant(s: Seq<u8>)
    requires
        is_digits(s),
        s.len() > 0 ==> s[0] != 0,
    ensures
        num_digits(seq_value(s)) == s.len(),
        s.len() > 0 ==> seq_value(s) > 0,
    decreases s.len(),
{
    if s.len() > 0 {
        let head = s.drop_last();
        lemma_num_digits_of_significant(head);
        assert(s.last() <= 9);
        if head.len() == 0 {
            assert(s.last() == s[0]);
        }
        assert(seq_value(s) / 10 == seq_value(head));
    }
}

/// Where the leading zeros end tells the digit count of the value.
pub proof fn lemma_num_digits_of_value(s: Seq<u8>, i: int)
    requires
        is_digits(s),
        is_first_non_zero(s, i),
    ensures
        num_digits(seq_value(s)) == s.len() - i,
{
    let tail = s.subrange(i, s.len() as int);
    lemma_value_skips_zeros(s, i);
    lemma_num_digits_of_significant(tail);
}

/// Quotients by a power of ten keep the order.
pub proof fn lemma_div_pow10_ordered(a: nat, b: nat, e: nat)
    requires
        a <= b,
    ensures
        a / pow10(e) <= b / pow10(e),
{
    lemma_pow10_step(e);
    lemma_div_is_ordered(a as int, b as int, pow10(e) as int);
}

/// A quotient and a remainder below the divisor make the number they came from.
pub proof fn lemma_div_mod_of_parts(q: nat, r: nat, d: nat)
    requires
        r < d,
    ensures
        (q * d + r) / d == q,
        (q * d + r) % d == r,
{
    lemma_fundamental_div_mod_converse((q * d + r) as int, d as int, q as int, r as int);
}

/// Ten to the power `exp`, as far as a `Number` holds it.
pub fn ten_pow(exp: u32) -> (r: Number)
    requires
        exp <= 38,
    ensures
        r == pow10(exp as nat),
{
    let mut r: Number = 1;
    let mut done: u32 = 0;
    proof {
        lemma_pow10_step(0);
    }
    while done < exp
        invariant
            done <= exp <= 38,
            r == pow10(done as nat),
        decreases exp - done,
    {
        proof {
            lemma_pow10_step(done as nat);
            lemma_pow10_fits((done + 1) as nat);
        }
        r = r * 10;
        done = done + 1;
    }
    r
}

/// `n` without its last `count` decimal digits.
pub fn drop_low_digits(n: Number, count: usize) -> (q: Number)
    ensures
        q == n as nat / pow10(count as nat),
{
    if count > 38 {
        proof {
            lemma_pow10_table();
            lemma_pow10_step(38);
            lemma_pow10_monotone(39, count as nat);
            vstd::arithmetic::div_mod::lemma_basic_div(n as int, pow10(count as nat) as int);
        }
        0
    } else {
        proof {
            lemma_pow10_step(count as nat);
        }
        n / ten_pow(count as u32)
    }
}

} // verus!
