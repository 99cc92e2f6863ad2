use puzlib::{gcd, lcm, CheckedAdd, CheckedSub, Median};

#[test]
fn test_gcd() {
    let expected = 6;
    let actual = gcd(18, 48);
    assert_eq!(expected, actual);
}

#[test]
fn test_gcd_same() {
    let expected = 6;
    let actual = gcd(6, 6);
    assert_eq!(expected, actual);
}

#[test]
fn test_gcd_zero() {
    let expected = 6;
    let actual = gcd(0, 6);
    assert_eq!(expected, actual);
}

#[test]
fn test_lcm() {
    let expected = 144;
    let actual = lcm(18, 48);
    assert_eq!(expected, actual);
}

#[test]
fn test_lcm_primes() {
    let expected = 15;
    let actual = lcm(3, 5);
    assert_eq!(expected, actual);
}

#[test]
fn test_lcm_zero() {
    let expected = 0;
    let actual = lcm(0, 6);
    assert_eq!(expected, actual);
}

#[test]
fn gcd_edge_cases() {
    assert_eq!(0, gcd(0, 0));
    assert_eq!(7, gcd(7, 0));
    assert_eq!(1, gcd(17, 5));
    assert_eq!(u64::MAX, gcd(u64::MAX, u64::MAX));
    assert_eq!(12, gcd(48, 180));
}

#[test]
fn checked_arithmetic_reports_leaving_the_range() {
    assert_eq!(Some(255_u8), CheckedAdd::checked_add(&250_u8, &5));
    assert_eq!(None, CheckedAdd::checked_add(&250_u8, &6));
    assert_eq!(None, CheckedSub::checked_sub(&0_usize, &1));
    assert_eq!(Some(-128_i8), CheckedSub::checked_sub(&-127_i8, &1));
    assert_eq!(None, CheckedSub::checked_sub(&-128_i8, &1));
    assert_eq!(None, CheckedAdd::checked_add(&i64::MAX, &1));
    assert_eq!(Some(i128::MIN), CheckedAdd::checked_add(&(i128::MIN + 1), &-1));
}

#[test]
fn test_odd_array_mid() {
    let mut odd = vec![1, 4, 3, 5, 6];
    assert_eq!(odd.mid(), [3]);
    odd.sort();
    assert_eq!(odd.mid(), [4]);
}

#[test]
fn test_even_array_mid() {
    let even = [1, 2, 3, 4];
    assert_eq!(even.as_slice().mid(), [2, 3]);
}

#[test]
fn mid_of_short_lists() {
    let none: Vec<i32> = vec![];
    assert!(none.mid().is_empty());
    assert_eq!(vec![7].mid(), [7]);
    assert_eq!(vec![7, 9].mid(), [7, 9]);
    assert_eq!(vec![7, 9, 11].mid(), [9]);
}

#[test]
fn gcd_and_lcm_take_every_integer_type() {
    assert_eq!(6_u8, gcd(18_u8, 48_u8));
    assert_eq!(6_u16, gcd(48_u16, 18_u16));
    assert_eq!(6_u32, gcd(18_u32, 48_u32));
    assert_eq!(6_u128, gcd(18_u128, 48_u128));
    assert_eq!(6_usize, gcd(18_usize, 48_usize));
    assert_eq!(6_i8, gcd(18_i8, 48_i8));
    assert_eq!(6_i16, gcd(18_i16, 48_i16));
    assert_eq!(6_i32, gcd(18_i32, 48_i32));
    assert_eq!(6_i64, gcd(18_i64, 48_i64));
    assert_eq!(6_i128, gcd(18_i128, 48_i128));
    assert_eq!(6_isize, gcd(18_isize, 48_isize));
    assert_eq!(i64::MAX, gcd(i64::MAX, 0));
    assert_eq!(12_u8, lcm(4_u8, 6_u8));
    assert_eq!(255_u8, lcm(15_u8, 17_u8));
    assert_eq!(144_i16, lcm(18_i16, 48_i16));
    assert_eq!(144_i64, lcm(48_i64, 18_i64));
    assert_eq!(144_u128, lcm(18_u128, 48_u128));
    assert_eq!(127_i8, lcm(127_i8, 1_i8));
    assert_eq!(0_isize, lcm(0_isize, 6_isize));
}
