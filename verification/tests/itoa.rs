use disarium::itoa::{int_to_digits, int_to_digits_old};
use disarium::{Digit, Number};

fn reference_digits(mut n: Number) -> Vec<Digit> {
    let mut out = Vec::new();
    while n > 0 {
        out.push((n % 10) as Digit);
        n /= 10;
    }
    out.reverse();
    out
}

fn extract_digits(buf: &[Digit]) -> Vec<Digit> {
    let first_nonzero = buf.iter().position(|&d| d != 0).unwrap_or(buf.len());
    buf[first_nonzero..].to_vec()
}

#[test]
fn test_small_numbers() {
    const N: usize = 20;
    let mut buf = [0 as Digit; N];

    for &n in &[0, 1, 5, 9, 10, 42, 99] {
        buf.fill(0);
        int_to_digits(n, &mut buf);
        let digits = extract_digits(&buf);
        assert_eq!(digits, reference_digits(n), "failed for n = {}", n);
    }
}

#[test]
fn test_medium_numbers() {
    const N: usize = 20;
    let mut buf = [0 as Digit; N];

    for &n in &[123, 4567, 89012, 99999, 100000, 654321] {
        buf.fill(0);
        int_to_digits(n, &mut buf);
        let digits = extract_digits(&buf);
        assert_eq!(digits, reference_digits(n), "failed for n = {}", n);
    }
}

#[test]
fn test_large_numbers() {
    const N: usize = 32;
    let mut buf = [0 as Digit; N];

    for &n in &[1_000_000_000, 4_294_967_295, 9_223_372] {
        buf.fill(0);
        int_to_digits(n, &mut buf);
        let digits = extract_digits(&buf);
        assert_eq!(digits, reference_digits(n), "failed for n = {}", n);
    }
}

#[test]
fn int_to_digits_returns_first_non_zero_index() {
    let mut buf = [0 as Digit; 8];
    assert_eq!(int_to_digits(0, &mut buf), 8);
    assert_eq!(int_to_digits(7, &mut buf), 7);
    assert_eq!(int_to_digits(42, &mut buf), 6);
    assert_eq!(int_to_digits(999, &mut buf), 5);
    assert_eq!(int_to_digits(1000, &mut buf), 4);
    assert_eq!(int_to_digits(12_345, &mut buf), 3);
    assert_eq!(int_to_digits(99_999_999, &mut buf), 0);
}

#[test]
fn int_to_digits_writes_exact_digits() {
    let mut buf = [0 as Digit; 10];
    int_to_digits(1_234_567_890, &mut buf);
    assert_eq!(buf, [1, 2, 3, 4, 5, 6, 7, 8, 9, 0]);
    int_to_digits(1_002_003, &mut buf);
    assert_eq!(buf, [0, 0, 0, 1, 0, 0, 2, 0, 0, 3]);
}

#[test]
fn int_to_digits_pads_with_zeros() {
    let mut buf = [7 as Digit; 6];
    let first = int_to_digits(305, &mut buf);
    assert_eq!(first, 3);
    assert_eq!(buf, [0, 0, 0, 3, 0, 5]);
    let first = int_to_digits(0, &mut buf);
    assert_eq!(first, 6);
    assert_eq!(buf, [0, 0, 0, 0, 0, 0]);
}

#[test]
fn int_to_digits_fills_a_buffer_of_the_exact_width() {
    let mut buf = [0 as Digit; 5];
    assert_eq!(int_to_digits(10_000, &mut buf), 0);
    assert_eq!(buf, [1, 0, 0, 0, 0]);
    let mut one = [0 as Digit; 1];
    assert_eq!(int_to_digits(9, &mut one), 0);
    assert_eq!(one, [9]);
    let mut none: [Digit; 0] = [];
    assert_eq!(int_to_digits(0, &mut none), 0);
}

#[test]
fn int_to_digits_takes_the_largest_number() {
    let mut buf = [0 as Digit; 39];
    let first = int_to_digits(Number::MAX, &mut buf);
    assert_eq!(first, 0);
    assert_eq!(extract_digits(&buf), reference_digits(Number::MAX));
}

#[test]
fn both_routines_agree() {
    let samples: [Number; 14] = [
        0,
        1,
        9,
        10,
        99,
        100,
        101,
        999,
        1000,
        9999,
        10_000,
        123_456_789,
        2_646_798,
        12_157_692_622_039_623_539,
    ];
    for &n in &samples {
        let mut fast = [5 as Digit; 24];
        let mut old = [3 as Digit; 24];
        let first_fast = int_to_digits(n, &mut fast);
        let first_old = int_to_digits_old(n, &mut old);
        assert_eq!(fast, old, "digits differ for n = {}", n);
        assert_eq!(first_fast, first_old, "index differs for n = {}", n);
        assert_eq!(extract_digits(&fast), reference_digits(n));
        assert_eq!(first_fast, 24 - reference_digits(n).len());
    }
}

#[test]
fn int_to_digits_old_writes_exact_digits() {
    let mut buf = [0 as Digit; 7];
    assert_eq!(int_to_digits_old(90_210, &mut buf), 2);
    assert_eq!(buf, [0, 0, 9, 0, 2, 1, 0]);
    assert_eq!(int_to_digits_old(0, &mut buf), 7);
    assert_eq!(buf, [0, 0, 0, 0, 0, 0, 0]);
}
