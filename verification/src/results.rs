//! The sequences that a search returns, as mathematics: the Disarium
//! numbers of an interval in ascending order, and those met on a walk in
//! equal steps. What holds of them is proved here once for all searches.

use crate::decimal::{lemma_pow10_monotone, lemma_pow10_step, pow10};
use crate::power_sum::is_disarium;
use vstd::arithmetic::div_mod::{lemma_mod_sub_multiples_vanish, lemma_small_mod};
use vstd::prelude::*;

verus! {

/// Each entry is below the next.
pub open spec fn strictly_ascending(s: Seq<u128>) -> bool {
    forall|i: int, j: int| 0 <= i < j < s.len() ==> #[trigger] s[i] < #[trigger] s[j]
}

/// The Disarium numbers from `low` up to but not including `high`, in
/// ascending order.
pub open spec fn disarium_between(low: nat, high: nat) -> Seq<u128>
    decreases high,
{
    if high <= low {
        Seq::empty()
    } else if is_disarium((high - 1) as nat) {
        disarium_between(low, (high - 1) as nat).push((high - 1) as u128)
    } else {
        disarium_between(low, (high - 1) as nat)
    }
}

/// The Disarium numbers with `digit_count` digits that are at most `bound`,
/// in ascending order.
pub open spec fn disarium_of_digit_count(digit_count: nat, bound: nat) -> Seq<u128> {
    disarium_between(
        pow10((digit_count - 1) as nat),
        if bound < pow10(digit_count) {
            bound + 1
        } else {
            pow10(digit_count)
        },
    )
}

/// `x` is met when walking up from `start` in steps of `step`.
pub open spec fn on_walk(x: nat, start: nat, step: nat) -> bool {
    start <= x && (x - start) % (step as int) == 0
}

/// How far a walk from `start` to `end` still has to go.
pub open spec fn distance(start: nat, end: nat) -> nat {
    if start <= end {
        (end + 1 - start) as nat
    } else {
        0
    }
}

/// The Disarium numbers among `start`, `start + step`, `start + 2 * step`
/// and so on up to `end`, in ascending order.
pub open spec fn disarium_stepping(start: nat, step: nat, end: nat) -> Seq<u128>
    decreases distance(start, end),
{
    if start > end || step == 0 {
        Seq::empty()
    } else if is_disarium(start) {
        seq![start as u128] + disarium_stepping(start + step, step, end)
    } else {
        disarium_stepping(start + step, step, end)
    }
}

/// The Disarium numbers below `10^digit_count`, put together digit count by
/// digit count behind a leading zero.
pub open spec fn disarium_by_digit_count(digit_count: nat) -> Seq<u128>
    decreases digit_count,
{
    if digit_count == 0 {
        seq![0u128]
    } else {
        disarium_by_digit_count((digit_count - 1) as nat) + disarium_between(
            pow10((digit_count - 1) as nat),
            pow10(digit_count),
        )
    }
}

/// Two strictly ascending sequences with the same entries are equal.
pub proof fn lemma_ascending_unique(s: Seq<u128>, t: Seq<u128>)
    requires
        strictly_ascending(s),
        strictly_ascending(t),
        forall|x: u128| #[trigger] s.contains(x) <==> t.contains(x),
    ensures
        s == t,
    decreases s.len(),
{
    if s.len() == 0 {
        if t.len() > 0 {
            assert(t.contains(t[0]));
            assert(s.contains(t[0]));
        }
        assert(s =~= t);
    } else {
        assert(s.contains(s.last()));
        assert(t.contains(s.last()));
        let j = choose|j: int| 0 <= j < t.len() && t[j] == s.last();
        assert(t.contains(t.last()));
        assert(s.contains(t.last()));
        let i = choose|i: int| 0 <= i < s.len() && s[i] == t.last();
        assert(s.last() == t.last()) by {
            if j < t.len() - 1 {
                assert(t[j] < t[t.len() - 1]);
            }
            if i < s.len() - 1 {
                assert(s[i] < s[s.len() - 1]);
            }
        }
        let s0 = s.drop_last();
        let t0 = t.drop_last();
        assert forall|x: u128| #[trigger] s0.contains(x) <==> t0.contains(x) by {
            if s0.contains(x) {
                let a = choose|a: int| 0 <= a < s0.len() && s0[a] == x;
                assert(s[a] == x);
                assert(s[a] < s[s.len() - 1]);
                assert(s.contains(x));
                let b = choose|b: int| 0 <= b < t.len() && t[b] == x;
                assert(t0[b] == x);
            }
            if t0.contains(x) {
                let b = choose|b: int| 0 <= b < t0.len() && t0[b] == x;
                assert(t[b] == x);
                assert(t[b] < t[t.len() - 1]);
                assert(t.contains(x));
                assert(s.contains(x));
                let a = choose|a: int| 0 <= a < s.len() && s[a] == x;
                assert(s0[a] == x);
            }
        }
        assert(strictly_ascending(s0)) by {
            assert forall|a: int, b: int| 0 <= a < b < s0.len() implies #[trigger] s0[a]
                < #[trigger] s0[b] by {
                assert(s[a] < s[b]);
            }
        }
        assert(strictly_ascending(t0)) by {
            assert forall|a: int, b: int| 0 <= a < b < t0.len() implies #[trigger] t0[a]
                < #[trigger] t0[b] by {
                assert(t[a] < t[b]);
            }
        }
        lemma_ascending_unique(s0, t0);
        assert(s =~= s0.push(s.last()));
        assert(t =~= t0.push(t.last()));
    }
}

/// What the sequence of an interval holds: exactly the Disarium numbers of
/// the interval, each once, in ascending order.
pub proof fn lemma_disarium_between(low: nat, high: nat)
    requires
        high <= u128::MAX + 1,
    ensures
        strictly_ascending(disarium_between(low, high)),
        forall|x: u128| #[trigger]
            disarium_between(low, high).contains(x) <==> low <= x < high && is_disarium(x as nat),
    decreases high,
{
    let s = disarium_between(low, high);
    if high > low {
        let last = (high - 1) as nat;
        let rest = disarium_between(low, last);
        lemma_disarium_between(low, last);
        if is_disarium(last) {
            assert(s == rest.push(last as u128));
            assert forall|i: int, j: int| 0 <= i < j < s.len() implies #[trigger] s[i]
                < #[trigger] s[j] by {
                assert(s[i] == rest[i]);
                assert(rest.contains(rest[i]));
                if j < rest.len() {
                    assert(s[j] == rest[j]);
                }
            }
            assert forall|x: u128| #[trigger] s.contains(x) <==> low <= x < high && is_disarium(
                x as nat,
            ) by {
                if s.contains(x) {
                    let i = choose|i: int| 0 <= i < s.len() && s[i] == x;
                    if i < rest.len() {
                        assert(rest[i] == x);
                        assert(rest.contains(x));
                    }
                }
                if low <= x < high && is_disarium(x as nat) {
                    if x == last {
                        assert(s[rest.len() as int] == x);
                    } else {
                        assert(rest.contains(x));
                        let i = choose|i: int| 0 <= i < rest.len() && rest[i] == x;
                        assert(s[i] == x);
                    }
                    assert(s.contains(x));
                }
            }
        }
    }
}

/// Two intervals that meet give the sequence of their union.
pub proof fn lemma_disarium_between_split(low: nat, middle: nat, high: nat)
    requires
        low <= middle <= high,
    ensures
        disarium_between(low, middle) + disarium_between(middle, high) == disarium_between(
            low,
            high,
        ),
    decreases high,
{
    if high == middle {
        assert(disarium_between(low, middle) + disarium_between(middle, high)
            =~= disarium_between(low, high));
    } else {
        let last = (high - 1) as nat;
        lemma_disarium_between_split(low, middle, last);
        assert(disarium_between(low, middle) + disarium_between(middle, high)
            =~= disarium_between(low, high));
    }
}

/// The Disarium numbers up to a bound come first among those up to any
/// larger bound.
pub proof fn lemma_disarium_prefix(bound: nat, larger: nat)
    requires
        bound <= larger,
    ensures
        disarium_between(0, bound + 1).is_prefix_of(disarium_between(0, larger + 1)),
{
    lemma_disarium_between_split(0, bound + 1, larger + 1);
    let head = disarium_between(0, bound + 1);
    let tail = disarium_between(bound + 1, larger + 1);
    assert((head + tail).subrange(0, head.len() as int) =~= head);
}

/// The sequences of the digit counts from one to `digit_count`, one after
/// the other behind a leading zero, are the Disarium numbers below
/// `10^digit_count`.
pub proof fn lemma_disarium_by_digit_count(digit_count: nat)
    ensures
        disarium_by_digit_count(digit_count) == disarium_between(0, pow10(digit_count)),
    decreases digit_count,
{
    lemma_pow10_step(0);
    if digit_count == 0 {
        reveal_with_fuel(disarium_between, 2);
        assert(is_disarium(0));
        assert(disarium_between(0, 1) =~= seq![0u128]);
    } else {
        let less = (digit_count - 1) as nat;
        lemma_disarium_by_digit_count(less);
        lemma_pow10_monotone(less, digit_count);
        lemma_disarium_between_split(0, pow10(less), pow10(digit_count));
    }
}

/// What the sequence of a walk holds: exactly the Disarium numbers on the
/// walk, each once, in ascending order.
pub proof fn lemma_disarium_stepping(start: nat, step: nat, end: nat)
    requires
        step > 0,
        end <= u128::MAX,
    ensures
        strictly_ascending(disarium_stepping(start, step, end)),
        forall|x: u128| #[trigger]
            disarium_stepping(start, step, end).contains(x) <==> x <= end && on_walk(
                x as nat,
                start,
                step,
            ) && is_disarium(x as nat),
    decreases distance(start, end),
{
    let s = disarium_stepping(start, step, end);
    if start <= end {
        let rest = disarium_stepping(start + step, step, end);
        lemma_disarium_stepping(start + step, step, end);
        assert forall|x: nat| #[trigger]
            on_walk(x, start, step) <==> x == start || on_walk(x, start + step, step) by {
            if x == start {
                assert(0int % (step as int) == 0);
            } else if start < x < start + step {
                lemma_small_mod((x - start) as nat, step);
            } else if x >= start + step {
                lemma_mod_sub_multiples_vanish(x - start, step as int);
            }
        }
        if is_disarium(start) {
            let first = seq![start as u128];
            assert(s == first + rest);
            assert forall|i: int, j: int| 0 <= i < j < s.len() implies #[trigger] s[i]
                < #[trigger] s[j] by {
                assert(s[j] == rest[j - 1]);
                assert(rest.contains(rest[j - 1]));
                assert(on_walk(s[j] as nat, start + step, step));
                if i > 0 {
                    assert(s[i] == rest[i - 1]);
                } else {
                    assert(s[i] == start);
                }
            }
            assert forall|x: u128| #[trigger]
                s.contains(x) <==> x <= end && on_walk(x as nat, start, step) && is_disarium(
                    x as nat,
                ) by {
                assert(on_walk(x as nat, start, step) <==> x == start || on_walk(
                    x as nat,
                    start + step,
                    step,
                ));
                if s.contains(x) {
                    let i = choose|i: int| 0 <= i < s.len() && s[i] == x;
                    if i > 0 {
                        assert(rest[i - 1] == x);
                        assert(rest.contains(x));
                    } else {
                        assert(x == start);
                    }
                }
                if x <= end && on_walk(x as nat, start, step) && is_disarium(x as nat) {
                    if x == start {
                        assert(s[0] == x);
                    } else {
                        assert(rest.contains(x));
                        let i = choose|i: int| 0 <= i < rest.len() && rest[i] == x;
                        assert(s[i + 1] == x);
                    }
                    assert(s.contains(x));
                }
            }
        } else {
            assert(s == rest);
            assert forall|x: u128| #[trigger]
                s.contains(x) <==> x <= end && on_walk(x as nat, start, step) && is_disarium(
                    x as nat,
                ) by {
                assert(on_walk(x as nat, start, step) <==> x == start || on_walk(
                    x as nat,
                    start + step,
                    step,
                ));
            }
        }
    } else {
        assert forall|x: u128| #[trigger]
            s.contains(x) <==> x <= end && on_walk(x as nat, start, step) && is_disarium(
                x as nat,
            ) by {
            if s.contains(x) {
                let i = choose|i: int| 0 <= i < s.len() && s[i] == x;
            }
        }
    }
}

/// A walk in steps of one meets every number of the interval.
pub proof fn lemma_stepping_by_one(start: nat, end: nat)
    requires
        end <= u128::MAX,
    ensures
        disarium_stepping(start, 1, end) == disarium_between(start, end + 1),
{
    lemma_disarium_stepping(start, 1, end);
    lemma_disarium_between(start, end + 1);
    assert forall|x: nat| #[trigger] on_walk(x, start, 1) <==> start <= x by {
        assert((x - start) % 1 == 0);
    }
    assert forall|x: u128| #[trigger]
        disarium_stepping(start, 1, end).contains(x) <==> disarium_between(
            start,
            end + 1,
        ).contains(x) by {
        assert(on_walk(x as nat, start, 1) <==> start <= x);
    }
    lemma_ascending_unique(disarium_stepping(start, 1, end), disarium_between(start, end + 1));
}

/// A walk may start later and end sooner where the parts left out hold no
/// Disarium number.
pub proof fn lemma_stepping_narrowed(start: nat, step: nat, end: nat, from: nat, to: nat)
    requires
        step > 0,
        end <= u128::MAX,
        on_walk(from, start, step),
        to <= end,
        forall|x: nat|
            x <= end && #[trigger] on_walk(x, start, step) && is_disarium(x) ==> from <= x <= to,
    ensures
        disarium_stepping(from, step, to) == disarium_stepping(start, step, end),
{
    lemma_disarium_stepping(start, step, end);
    lemma_disarium_stepping(from, step, to);
    let wide = disarium_stepping(start, step, end);
    let narrow = disarium_stepping(from, step, to);
    assert forall|x: u128| #[trigger] narrow.contains(x) <==> wide.contains(x) by {
        let d = step as int;
        if from <= x {
            vstd::arithmetic::div_mod::lemma_add_mod_noop(x - from, from - start, d);
            assert((x - from) + (from - start) == x - start);
            vstd::arithmetic::div_mod::lemma_sub_mod_noop(x - start, from - start, d);
            assert((x - start) - (from - start) == x - from);
            assert(0int % d == 0);
            vstd::arithmetic::div_mod::lemma_mod_twice(x - from, d);
            vstd::arithmetic::div_mod::lemma_mod_twice(x - start, d);
            assert(on_walk(x as nat, from, step) <==> on_walk(x as nat, start, step));
        }
        if wide.contains(x) {
            assert(on_walk(x as nat, start, step));
            assert(from <= x <= to);
        }
    }
    lemma_ascending_unique(narrow, wide);
}

} // verus!
