use disarium::digits::Digits;
use disarium::search::{
    disarium_for_digit_count, disarium_for_digit_count_with_frozen, freeze_and_split, num_digits,
    num_to_digits, search_block_at, search_frozen_block, search_range, sort_ascending,
};
use disarium::{find_disarium, find_disarium_for_digit_count, search_digit_count, Number};

fn is_disarium(n: Number) -> bool {
    if n == 0 {
        return true;
    }
    let text = n.to_string();
    let mut sum: Number = 0;
    for (position, c) in text.chars().enumerate() {
        let d = c.to_digit(10).unwrap() as Number;
        sum += d.pow(position as u32 + 1);
    }
    sum == n
}

fn brute_force(low: Number, high: Number) -> Vec<Number> {
    (low..=high).filter(|&n| is_disarium(n)).collect()
}

#[test]
fn test_find_disarium() {
    assert_eq!(
        find_disarium(3_000_000),
        vec![
            0, 1, 2, 3, 4, 5, 6, 7, 8, 9, 89, 135, 175, 518, 598, 1306, 1676, 2427, 2646798,
        ]
    );
}

#[test]
fn ten_digits() {
    assert_eq!(
        find_disarium(9_999_999_999),
        vec![
            0, 1, 2, 3, 4, 5, 6, 7, 8, 9, 89, 135, 175, 518, 598, 1306, 1676, 2427, 2646798,
        ]
    );
    assert_eq!(find_disarium_for_digit_count(8), Vec::<Number>::new());
    assert_eq!(find_disarium_for_digit_count(9), Vec::<Number>::new());
    assert_eq!(find_disarium_for_digit_count(10), Vec::<Number>::new());
}

#[test]
fn bound_zero_gives_zero_alone() {
    assert_eq!(find_disarium(0), vec![0]);
}

#[test]
fn small_bounds() {
    assert_eq!(find_disarium(1), vec![0, 1]);
    assert_eq!(find_disarium(9), vec![0, 1, 2, 3, 4, 5, 6, 7, 8, 9]);
    assert_eq!(find_disarium(10), vec![0, 1, 2, 3, 4, 5, 6, 7, 8, 9]);
    assert_eq!(find_disarium(88), vec![0, 1, 2, 3, 4, 5, 6, 7, 8, 9]);
    assert_eq!(find_disarium(89), vec![0, 1, 2, 3, 4, 5, 6, 7, 8, 9, 89]);
    assert_eq!(find_disarium(134), vec![0, 1, 2, 3, 4, 5, 6, 7, 8, 9, 89]);
    assert_eq!(find_disarium(135), vec![0, 1, 2, 3, 4, 5, 6, 7, 8, 9, 89, 135]);
}

#[test]
fn membership_agrees_with_the_definition() {
    for bound in [0u128, 7, 99, 100, 600, 2427, 12_345, 150_000] {
        assert_eq!(find_disarium(bound), brute_force(0, bound), "bound = {}", bound);
    }
}

#[test]
fn the_bound_is_not_overstepped() {
    let below = find_disarium(2_646_797);
    assert_eq!(below.last(), Some(&2427));
    let at = find_disarium(2_646_798);
    assert_eq!(at.last(), Some(&2_646_798));
    let after = find_disarium(2_646_800);
    assert_eq!(after.last(), Some(&2_646_798));
    assert_eq!(find_disarium(1305).last(), Some(&598));
    assert_eq!(find_disarium(1306).last(), Some(&1306));
}

#[test]
fn smaller_bound_gives_a_prefix() {
    let bounds: [Number; 8] = [0, 5, 89, 100, 518, 2000, 99_999, 3_000_000];
    for (i, &small) in bounds.iter().enumerate() {
        for &large in &bounds[i..] {
            let short = find_disarium(small);
            let long = find_disarium(large);
            assert!(short.len() <= long.len());
            assert_eq!(short[..], long[..short.len()]);
        }
    }
}

#[test]
fn results_ascend() {
    let found = find_disarium(3_000_000);
    for pair in found.windows(2) {
        assert!(pair[0] < pair[1]);
    }
}

#[test]
fn single_digit_numbers() {
    assert_eq!(find_disarium_for_digit_count(1), vec![1, 2, 3, 4, 5, 6, 7, 8, 9]);
}

#[test]
fn each_digit_count() {
    assert_eq!(find_disarium_for_digit_count(2), vec![89]);
    assert_eq!(find_disarium_for_digit_count(3), vec![135, 175, 518, 598]);
    assert_eq!(find_disarium_for_digit_count(4), vec![1306, 1676, 2427]);
    assert_eq!(find_disarium_for_digit_count(5), Vec::<Number>::new());
    assert_eq!(find_disarium_for_digit_count(6), Vec::<Number>::new());
    assert_eq!(find_disarium_for_digit_count(7), vec![2_646_798]);
}

#[test]
fn digit_counts_put_together() {
    for digits in 1..=7u32 {
        let mut joined: Vec<Number> = vec![0];
        for k in 1..=digits {
            joined.extend(find_disarium_for_digit_count(k));
        }
        assert_eq!(joined, find_disarium(10u128.pow(digits) - 1));
    }
}

#[test]
fn search_digit_count_respects_the_bound() {
    assert_eq!(search_digit_count(3, 517), vec![135, 175]);
    assert_eq!(search_digit_count(3, 518), vec![135, 175, 518]);
    assert_eq!(search_digit_count(3, 99), Vec::<Number>::new());
    assert_eq!(search_digit_count(3, Number::MAX), vec![135, 175, 518, 598]);
    assert_eq!(search_digit_count(7, 2_646_797), Vec::<Number>::new());
    assert_eq!(search_digit_count(7, 2_646_798), vec![2_646_798]);
}

#[test]
fn parallel_and_serial_agree() {
    for bound in [2_646_797u128, 2_646_798, 5_000_000, 9_999_999, Number::MAX] {
        let serial = freeze_and_split::<2, 7, 0>(7, bound);
        let one_digit = freeze_and_split::<2, 7, 1>(7, bound);
        let two_digits = freeze_and_split::<2, 7, 2>(7, bound);
        let wider = freeze_and_split::<3, 9, 1>(7, bound);
        let unfrozen = freeze_and_split::<7, 7, 0>(7, bound);
        assert_eq!(serial, one_digit);
        assert_eq!(serial, two_digits);
        assert_eq!(serial, wider);
        assert_eq!(serial, unfrozen);
    }
    assert_eq!(freeze_and_split::<2, 7, 1>(7, 9_999_999), vec![2_646_798]);
}

#[test]
fn frozen_search_of_small_digit_counts() {
    assert_eq!(freeze_and_split::<1, 3, 0>(3, 999), vec![135, 175, 518, 598]);
    assert_eq!(freeze_and_split::<1, 3, 1>(3, 999), vec![135, 175, 518, 598]);
    assert_eq!(freeze_and_split::<2, 3, 1>(3, 999), vec![135, 175, 518, 598]);
    assert_eq!(freeze_and_split::<2, 3, 2>(3, 999), vec![135, 175, 518, 598]);
    assert_eq!(freeze_and_split::<2, 4, 1>(4, 9999), vec![1306, 1676, 2427]);
    assert_eq!(freeze_and_split::<3, 4, 2>(4, 2000), vec![1306, 1676]);
    assert_eq!(freeze_and_split::<0, 4, 0>(4, 9999), vec![1306, 1676, 2427]);
    assert_eq!(freeze_and_split::<1, 2, 1>(2, 99), vec![89]);
    assert_eq!(freeze_and_split::<1, 2, 1>(1, 99), vec![1, 2, 3, 4, 5, 6, 7, 8, 9]);
}

#[test]
fn frozen_search_agrees_with_the_definition() {
    for digit_count in 2..=5u32 {
        let low = 10u128.pow(digit_count - 1);
        let high = 10u128.pow(digit_count) - 1;
        for bound in [low - 1, low, low + 37, (low + high) / 2, high, high + 1] {
            let expected = brute_force(low, high.min(bound));
            assert_eq!(freeze_and_split::<1, 5, 0>(digit_count, bound), expected);
            assert_eq!(freeze_and_split::<1, 5, 1>(digit_count, bound), expected);
        }
    }
}

#[test]
fn one_class_of_frozen_digits() {
    assert_eq!(
        disarium_for_digit_count_with_frozen::<2, 7>(5, 9_999_999, [9, 8]),
        vec![2_646_798]
    );
    assert_eq!(
        disarium_for_digit_count_with_frozen::<2, 7>(5, 2_646_797, [9, 8]),
        Vec::<Number>::new()
    );
    assert_eq!(
        disarium_for_digit_count_with_frozen::<2, 7>(5, 9_999_999, [9, 7]),
        Vec::<Number>::new()
    );
    assert_eq!(disarium_for_digit_count_with_frozen::<1, 3>(2, 999, [5]), vec![135, 175]);
    assert_eq!(disarium_for_digit_count_with_frozen::<1, 3>(2, 150, [5]), vec![135]);
    assert_eq!(disarium_for_digit_count_with_frozen::<1, 3>(2, 999, [8]), vec![518, 598]);
    assert_eq!(disarium_for_digit_count_with_frozen::<1, 4>(1, 99, [9]), vec![89]);
    assert_eq!(disarium_for_digit_count_with_frozen::<0, 4>(3, 999, []), vec![135, 175, 518, 598]);
}

#[test]
fn one_class_agrees_with_the_definition() {
    for frozen in 0..100u128 {
        let digits = [(frozen / 10) as u8, (frozen % 10) as u8];
        let expected: Vec<Number> =
            brute_force(1000, 9999).into_iter().filter(|n| n % 100 == frozen).collect();
        assert_eq!(disarium_for_digit_count_with_frozen::<2, 4>(2, 9999, digits), expected);
    }
}

#[test]
fn blocks_of_classes() {
    assert_eq!(search_frozen_block::<1, 3>(2, 999, 0, 10), vec![135, 175, 518, 598]);
    assert_eq!(search_frozen_block::<1, 3>(2, 999, 5, 1), vec![135, 175]);
    assert_eq!(search_frozen_block::<1, 3>(2, 999, 6, 3), vec![518, 598]);
    assert_eq!(search_frozen_block::<1, 3>(2, 999, 0, 0), Vec::<Number>::new());
    assert_eq!(search_frozen_block::<2, 4>(2, 9999, 0, 100), vec![1306, 2427, 1676]);
    assert_eq!(search_frozen_block::<2, 4>(2, 9999, 20, 80), vec![2427, 1676]);
    assert_eq!(search_block_at::<2, 4>(2, 9999, 10, 0), vec![1306]);
    assert_eq!(search_block_at::<2, 4>(2, 9999, 10, 2), vec![2427]);
    assert_eq!(search_block_at::<2, 4>(2, 9999, 10, 7), vec![1676]);
    assert_eq!(search_block_at::<2, 4>(2, 9999, 10, 9), Vec::<Number>::new());
}

#[test]
fn whole_digit_count_without_frozen_digits() {
    assert_eq!(disarium_for_digit_count::<4>(1, 9), vec![1, 2, 3, 4, 5, 6, 7, 8, 9]);
    assert_eq!(disarium_for_digit_count::<4>(1, 4), vec![1, 2, 3, 4]);
    assert_eq!(disarium_for_digit_count::<4>(1, 0), Vec::<Number>::new());
    assert_eq!(disarium_for_digit_count::<4>(3, 999), vec![135, 175, 518, 598]);
    assert_eq!(disarium_for_digit_count::<4>(3, 175), vec![135, 175]);
    assert_eq!(disarium_for_digit_count::<4>(4, Number::MAX), vec![1306, 1676, 2427]);
}

#[test]
fn search_range_walks_in_steps() {
    let start = Digits::<4>::from_number(100);
    assert_eq!(search_range::<4>(100, start, 999, 0), vec![135, 175, 518, 598]);
    let start = Digits::<4>::from_number(105);
    assert_eq!(search_range::<4>(105, start, 999, 1), vec![135, 175]);
    let start = Digits::<4>::from_number(18);
    assert_eq!(search_range::<4>(18, start, 999, 2), vec![518]);
    let start = Digits::<4>::from_number(135);
    assert_eq!(search_range::<4>(135, start, 135, 0), vec![135]);
    let start = Digits::<4>::from_number(135);
    assert_eq!(search_range::<4>(135, start, 134, 0), Vec::<Number>::new());
    let start = Digits::<4>::from_number(135);
    assert_eq!(search_range::<4>(135, start, 174, 1), vec![135]);
    let start = Digits::<4>::from_number(5);
    assert_eq!(search_range::<4>(5, start, 200, 3), vec![5]);
    let start = Digits::<4>::from_number(0);
    assert_eq!(search_range::<4>(0, start, 9999, 0), brute_force(0, 9999));
}

#[test]
fn num_digits_counts_decimal_digits() {
    assert_eq!(num_digits(0), 0);
    assert_eq!(num_digits(1), 1);
    assert_eq!(num_digits(9), 1);
    assert_eq!(num_digits(10), 2);
    assert_eq!(num_digits(99), 2);
    assert_eq!(num_digits(100), 3);
    assert_eq!(num_digits(3_000_000), 7);
    assert_eq!(num_digits(Number::MAX), 39);
}

#[test]
fn num_to_digits_pads_with_zeros() {
    assert_eq!(num_to_digits::<4>(0), [0, 0, 0, 0]);
    assert_eq!(num_to_digits::<4>(7), [0, 0, 0, 7]);
    assert_eq!(num_to_digits::<4>(1203), [1, 2, 0, 3]);
    assert_eq!(num_to_digits::<4>(9999), [9, 9, 9, 9]);
    assert_eq!(num_to_digits::<0>(0), [0u8; 0]);
    assert_eq!(num_to_digits::<2>(98), [9, 8]);
}

#[test]
fn sort_ascending_orders_and_keeps_every_entry() {
    assert_eq!(sort_ascending(&vec![]), Vec::<Number>::new());
    assert_eq!(sort_ascending(&vec![3]), vec![3]);
    assert_eq!(sort_ascending(&vec![598, 135, 518, 175]), vec![135, 175, 518, 598]);
    assert_eq!(sort_ascending(&vec![2, 1, 2, 0, 1]), vec![0, 1, 1, 2, 2]);
    assert_eq!(sort_ascending(&vec![1, 2, 3]), vec![1, 2, 3]);
    assert_eq!(sort_ascending(&vec![Number::MAX, 0]), vec![0, Number::MAX]);
}
