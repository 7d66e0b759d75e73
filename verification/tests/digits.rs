use disarium::decimal::{drop_low_digits, ten_pow};
use disarium::digits::{digits_to_num, Digits};
use disarium::table::{calc_exp, exp_digit, MAX_DIGITS};
use disarium::Number;

fn brute_exp(n: Number) -> Number {
    let text = n.to_string();
    let mut sum: Number = 0;
    for (position, c) in text.chars().enumerate() {
        let d = c.to_digit(10).unwrap() as Number;
        sum += d.pow(position as u32 + 1);
    }
    if n == 0 {
        0
    } else {
        sum
    }
}

#[test]
fn exp_digit_reads_powers() {
    assert_eq!(exp_digit(0, 0), 0);
    assert_eq!(exp_digit(0, 7), 0);
    assert_eq!(exp_digit(1, 24), 1);
    assert_eq!(exp_digit(2, 0), 2);
    assert_eq!(exp_digit(2, 9), 1024);
    assert_eq!(exp_digit(9, 2), 729);
    assert_eq!(exp_digit(7, 3), 2401);
    assert_eq!(exp_digit(9, 19), 12_157_665_459_056_928_801);
    assert_eq!(exp_digit(9, 24), 717_897_987_691_852_588_770_249);
}

#[test]
fn exp_digit_agrees_with_pow_everywhere() {
    for d in 0..10u8 {
        for p in 0..MAX_DIGITS {
            assert_eq!(exp_digit(d, p), (d as Number).pow(p as u32 + 1));
        }
    }
}

#[test]
fn calc_exp_sums_left_to_right() {
    assert_eq!(calc_exp(&[1, 3, 5]), 1 + 9 + 125);
    assert_eq!(calc_exp(&[5, 3, 1]), 5 + 9 + 1);
    assert_eq!(calc_exp(&[]), 0);
    assert_eq!(calc_exp(&[0, 0, 2]), 8);
    assert_eq!(calc_exp(&[8, 9]), 89);
}

#[test]
fn exp_ignores_leading_zeros() {
    assert_eq!(Digits::<20>::from_number(135).exp(), 135);
    assert_eq!(Digits::<3>::from_number(135).exp(), 135);
    assert_eq!(Digits::<20>::from_number(10).exp(), 1);
    assert_eq!(Digits::<30>::from_number(598).exp(), 598);
    assert_eq!(Digits::<20>::from_number(0).exp(), 0);
    assert_eq!(Digits::<20>::from_number(2_646_798).exp(), 2_646_798);
    assert_eq!(Digits::<20>::from_number(2_646_799).exp(), 2_646_798 - 8u128.pow(7) + 9u128.pow(7));
    assert_eq!(
        Digits::<20>::from_number(12_157_692_622_039_623_539).exp(),
        12_157_692_622_039_623_539
    );
}

#[test]
fn exp_agrees_with_the_definition() {
    for n in 0..3000u128 {
        assert_eq!(Digits::<8>::from_number(n).exp(), brute_exp(n), "n = {}", n);
    }
}

#[test]
fn codec_round_trip() {
    let samples: [Number; 10] = [
        0,
        1,
        9,
        10,
        4321,
        99_999,
        100_000,
        18_446_744_073_709_551_615,
        99_999_999_999_999_999_999,
        12_157_692_622_039_623_539,
    ];
    for &n in &samples {
        assert_eq!(Digits::<20>::from_number(n).to_number(), n);
        assert_eq!(Digits::<25>::from_number(n).to_number(), n);
    }
    for n in 0..2000u128 {
        assert_eq!(Digits::<4>::from_number(n).to_number(), n);
    }
}

#[test]
fn digits_to_num_reads_most_significant_first() {
    assert_eq!(digits_to_num(&[0, 1, 2, 3]), 123);
    assert_eq!(digits_to_num(&[9, 0, 0]), 900);
    assert_eq!(digits_to_num::<0>(&[]), 0);
}

#[test]
fn digits_to_num_saturates() {
    let nines = [9u8; 39];
    assert_eq!(digits_to_num(&nines), Number::MAX);
    let mut top = [0u8; 45];
    top[0] = 1;
    assert_eq!(digits_to_num(&top), Number::MAX);
    let mut fits = [0u8; 45];
    fits[44] = 7;
    fits[7] = 1;
    assert_eq!(digits_to_num(&fits), 10u128.pow(37) + 7);
}

#[test]
fn add_base_pow_adds_a_power_of_ten() {
    let mut d = Digits::<6>::from_number(0);
    d.add_base_pow(0);
    assert_eq!(d.to_number(), 1);
    d.add_base_pow(2);
    assert_eq!(d.to_number(), 101);
    d.add_base_pow(5);
    assert_eq!(d.to_number(), 100_101);
    let mut carry = Digits::<6>::from_number(99_999);
    carry.add_base_pow(0);
    assert_eq!(carry.to_number(), 100_000);
    assert_eq!(carry.exp(), 1);
    let mut inner = Digits::<6>::from_number(19_995);
    inner.add_base_pow(1);
    assert_eq!(inner.to_number(), 20_005);
    assert_eq!(inner.exp(), 2 + 5u128.pow(5));
}

#[test]
fn stepping_agrees_with_decoding() {
    for pow in 0..4usize {
        let step = 10u128.pow(pow as u32);
        let mut number: Number = 7;
        let mut stepped = Digits::<7>::from_number(number);
        for _ in 0..2500 {
            stepped.add_base_pow(pow);
            number += step;
            let decoded = Digits::<7>::from_number(number);
            assert_eq!(stepped.to_number(), number);
            assert_eq!(stepped.to_number(), decoded.to_number());
            assert_eq!(stepped.exp(), decoded.exp());
            assert_eq!(format!("{:?}", stepped), format!("{:?}", decoded));
        }
    }
}

#[test]
fn min_and_max_for_digit_count() {
    assert_eq!(Digits::<5>::min_for_digit_count(1).to_number(), 1);
    assert_eq!(Digits::<5>::min_for_digit_count(3).to_number(), 100);
    assert_eq!(Digits::<5>::min_for_digit_count(5).to_number(), 10_000);
    assert_eq!(Digits::<5>::max_for_digit_count(0).to_number(), 0);
    assert_eq!(Digits::<5>::max_for_digit_count(3).to_number(), 999);
    assert_eq!(Digits::<5>::max_for_digit_count(5).to_number(), 99_999);
    assert_eq!(Digits::<5>::min_for_digit_count(3).exp(), 1);
    assert_eq!(Digits::<5>::max_for_digit_count(3).exp(), 9 + 81 + 729);
    assert_eq!(Digits::<5>::max_for_digit_count(0).exp(), 0);
}

#[test]
fn with_overwritten_replaces_the_last_digits() {
    let d = Digits::<6>::from_number(123_456).with_overwritten(&[0, 7]);
    assert_eq!(d.to_number(), 123_407);
    assert_eq!(d.exp(), 1 + 4 + 27 + 256 + 0 + 7u128.pow(6));
    let all = Digits::<3>::from_number(999).with_overwritten(&[1, 2, 3]);
    assert_eq!(all.to_number(), 123);
    let none = Digits::<3>::from_number(456).with_overwritten::<0>(&[]);
    assert_eq!(none.to_number(), 456);
}

#[test]
fn with_overwritten_finds_the_leading_zeros_again() {
    let shorter = Digits::<4>::from_number(10).with_overwritten(&[0, 5]);
    assert_eq!(shorter.to_number(), 5);
    assert_eq!(shorter.exp(), 5);
    let zero = Digits::<4>::from_number(37).with_overwritten(&[0, 0]);
    assert_eq!(zero.to_number(), 0);
    assert_eq!(zero.exp(), 0);
    let longer = Digits::<4>::from_number(0).with_overwritten(&[4, 2]);
    assert_eq!(longer.to_number(), 42);
    assert_eq!(longer.exp(), 4 + 4);
    let kept = Digits::<4>::from_number(1200).with_overwritten(&[0, 0]);
    assert_eq!(kept.to_number(), 1200);
    assert_eq!(kept.exp(), 1 + 4);
}

#[test]
fn from_number_with_overwrite_keeps_the_upper_digits() {
    let d = Digits::<7>::from_number_with_overwrite(12_345, &[6, 7]);
    assert_eq!(d.to_number(), 12_367);
    assert_eq!(d.exp(), 1 + 4 + 27 + 6u128.pow(4) + 7u128.pow(5));
    let low = Digits::<7>::from_number_with_overwrite(45, &[0, 3]);
    assert_eq!(low.to_number(), 3);
    assert_eq!(low.exp(), 3);
    let zero = Digits::<7>::from_number_with_overwrite(99, &[0, 0]);
    assert_eq!(zero.to_number(), 0);
    assert_eq!(zero.exp(), 0);
    let whole = Digits::<3>::from_number_with_overwrite(5, &[1, 2, 3]);
    assert_eq!(whole.to_number(), 123);
    let wide = Digits::<4>::from_number_with_overwrite(9876, &[0, 0]);
    assert_eq!(wide.to_number(), 9800);
}

#[test]
fn ten_pow_and_drop_low_digits() {
    assert_eq!(ten_pow(0), 1);
    assert_eq!(ten_pow(3), 1000);
    assert_eq!(ten_pow(38), 100_000_000_000_000_000_000_000_000_000_000_000_000);
    assert_eq!(drop_low_digits(123_456, 0), 123_456);
    assert_eq!(drop_low_digits(123_456, 2), 1234);
    assert_eq!(drop_low_digits(123_456, 6), 0);
    assert_eq!(drop_low_digits(Number::MAX, 38), 3);
    assert_eq!(drop_low_digits(Number::MAX, 39), 0);
    assert_eq!(drop_low_digits(Number::MAX, 1000), 0);
}

#[test]
fn digits_can_be_cloned() {
    let d = Digits::<6>::from_number(518);
    let mut copy = d.clone();
    copy.add_base_pow(1);
    assert_eq!(d.to_number(), 518);
    assert_eq!(copy.to_number(), 528);
}
