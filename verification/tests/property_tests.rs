use bignum::biguint::BigUInt;

#[test]
fn round_trip_zero() {
    assert_eq!(BigUInt::from_u64(0).to_text(), "0");
}

#[test]
fn round_trip_inner_zeros() {
    assert_eq!(BigUInt::from_u64(10500).to_text(), "10500");
}

#[test]
fn round_trip_u64_max() {
    assert_eq!(
        BigUInt::from_u64(18446744073709551615u64).to_text(),
        "18446744073709551615"
    );
}

#[test]
fn add_zero_left_and_right() {
    let a = BigUInt::from_u64(90817243658u64);
    let zero = BigUInt::default();
    assert_eq!(a.add_shifted(&zero, 0), a);
    assert_eq!(zero.add_shifted(&a, 0), a);
}

#[test]
fn add_commutes() {
    let a = BigUInt::from_u32(99999);
    let b = BigUInt::from_u32(12345);
    assert_eq!(a.add_shifted(&b, 0), b.add_shifted(&a, 0));
}

#[test]
fn multiply_commutes() {
    let a = BigUInt::from_u32(98765);
    let b = BigUInt::from_u32(43219876);
    assert_eq!(a.multiply(&b), b.multiply(&a));
}

#[test]
fn shift_matches_times_ten() {
    let a = BigUInt::from_u32(7777);
    let b = BigUInt::from_u32(42);
    let shifted = BigUInt::times_ten(&b, 5);
    assert_eq!(a.add_shifted(&b, 5), a.add_shifted(&shifted, 0));
}

#[test]
fn multiply_by_one() {
    let a = BigUInt::from_u64(31415926535u64);
    let one = BigUInt::from_u32(1);
    assert_eq!(a.multiply(&one), a);
    assert_eq!(one.multiply(&a), a);
}

#[test]
fn multiply_by_zero() {
    let a = BigUInt::from_u64(31415926535u64);
    let zero = BigUInt::default();
    assert_eq!(a.multiply(&zero), zero);
    assert_eq!(zero.multiply(&a), BigUInt::default());
}

#[test]
fn factorial_of_zero_and_one() {
    assert_eq!(BigUInt::factorial(0), BigUInt::from_u32(1));
    assert_eq!(BigUInt::factorial(1), BigUInt::from_u32(1));
}

#[test]
fn factorial_grows_by_multiplication() {
    let five = BigUInt::factorial(5);
    let six = BigUInt::factorial(6);
    assert_eq!(six, five.multiply(&BigUInt::from_u64(6)));
    assert_eq!(six, BigUInt::from_u32(720));
}

#[test]
fn text_with_separators() {
    let result = BigUInt::from_text("1_000_000").unwrap();
    assert_eq!(result.digits(), vec![1, 0, 0, 0, 0, 0, 0]);
}

#[test]
fn text_keeps_leading_zeros() {
    let result = BigUInt::from_text("007").unwrap();
    assert_eq!(result.digits(), vec![0, 0, 7]);
}

#[test]
fn text_leading_zeros_render_back() {
    let result = BigUInt::from_text("007").unwrap();
    assert_eq!(result.to_text(), "007");
}

#[test]
fn text_rejects_other_characters() {
    assert!(BigUInt::from_text("12a3").is_none());
    assert!(BigUInt::from_text("-5").is_none());
    assert!(BigUInt::from_text(" 5").is_none());
}

#[test]
fn text_rejects_when_no_digit_remains() {
    assert!(BigUInt::from_text("").is_none());
    assert!(BigUInt::from_text("_").is_none());
}

#[test]
fn from_usize_matches_from_u64() {
    assert_eq!(BigUInt::from_usize(4235253usize), BigUInt::from_u64(4235253u64));
}

#[test]
fn shifted_zero_keeps_leading_zeros() {
    let a = BigUInt::from_u32(123);
    let zero = BigUInt::default();
    let result = a.add_shifted(&zero, 5);
    assert_eq!(result.digits(), vec![0, 0, 0, 1, 2, 3]);
}

#[test]
fn times_ten_of_zero() {
    let zero = BigUInt::default();
    let result = zero.times_ten_in_place(3);
    assert_eq!(result.digits(), vec![0, 0, 0, 0]);
}

#[test]
fn add_with_carry_digit() {
    let a = BigUInt::from_u32(999);
    let b = BigUInt::from_u32(1);
    let result = a.add_shifted(&b, 0);
    assert_eq!(result.digits(), vec![1, 0, 0, 0]);
}

#[test]
fn clone_preserves_digits() {
    let a = BigUInt::from_u32(60);
    let b = a.clone();
    assert_eq!(a, b);
    assert_eq!(b.digits(), vec![6, 0]);
}

#[test]
fn multiply_by_one_keeps_leading_zeros() {
    let a = BigUInt::from_text("07").unwrap();
    let one = BigUInt::from_u32(1);
    assert_eq!(a.multiply(&one).digits(), vec![0, 7]);
    let b = BigUInt::from_text("07").unwrap();
    assert_eq!(one.multiply(&b).digits(), vec![0, 7]);
}

#[test]
fn multiply_commutes_across_lengths_with_leading_zeros() {
    let a = BigUInt::from_text("02").unwrap();
    let b = BigUInt::from_u32(9);
    assert_eq!(a.multiply(&b), b.multiply(&a));
}
