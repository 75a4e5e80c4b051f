use par2rs::galois::{gcd, Galois16, GaloisTable, COUNT, LIMIT};

#[test]
fn galois_table_log_antilog_consistency() {
    let table = GaloisTable::new();
    for i in 1..COUNT {
        let log_val = table.log[i];
        let recovered = table.antilog[log_val as usize];
        assert_eq!(recovered, i as u16, "Inconsistency at i={}", i);
    }
}

#[test]
fn galois_table_zero_special_case() {
    let table = GaloisTable::new();
    assert_eq!(table.log[0], LIMIT as u16);
    assert_eq!(table.antilog[LIMIT], 0);
}

#[test]
fn galois_table_generator_property() {
    let table = GaloisTable::new();
    assert_eq!(table.antilog[0], 1);
}

#[test]
fn galois16_zero_identity() {
    let zero = Galois16::new(0);
    let a = Galois16::new(0x1234);
    assert_eq!(zero + a, a);
    assert_eq!(a + zero, a);
    assert_eq!(zero * a, zero);
    assert_eq!(a * zero, zero);
}

#[test]
fn galois16_one_multiplicative_identity() {
    let one = Galois16::new(1);
    let a = Galois16::new(0x5678);
    assert_eq!(one * a, a);
    assert_eq!(a * one, a);
}

#[test]
fn galois16_addition_is_xor() {
    let a = Galois16::new(0x1234);
    let b = Galois16::new(0x5678);
    let sum = a + b;
    assert_eq!(sum.value(), 0x1234 ^ 0x5678);
}

#[test]
fn galois16_addition_commutative() {
    let a = Galois16::new(0xABCD);
    let b = Galois16::new(0x1234);
    assert_eq!(a + b, b + a);
}

#[test]
fn galois16_addition_self_is_zero() {
    let a = Galois16::new(0x1234);
    assert_eq!(a + a, Galois16::new(0));
}

#[test]
fn galois16_subtraction_equals_addition() {
    let a = Galois16::new(0x1234);
    let b = Galois16::new(0x5678);
    assert_eq!(a + b, a - b);
}

#[test]
fn galois16_multiplication_commutative() {
    let a = Galois16::new(7);
    let b = Galois16::new(13);
    assert_eq!(a * b, b * a);
}

#[test]
fn galois16_multiplication_associative() {
    let a = Galois16::new(3);
    let b = Galois16::new(5);
    let c = Galois16::new(7);
    assert_eq!((a * b) * c, a * (b * c));
}

#[test]
fn galois16_distributive_property() {
    let a = Galois16::new(3);
    let b = Galois16::new(5);
    let c = Galois16::new(7);
    assert_eq!(a * (b + c), (a * b) + (a * c));
}

#[test]
fn galois16_division_inverse_of_multiplication() {
    let a = Galois16::new(2);
    let b = Galois16::new(3);
    let product = a * b;
    assert_eq!(product / a, b);
    assert_eq!(product / b, a);
}

#[test]
fn galois16_division_by_self_is_one() {
    let a = Galois16::new(0x1234);
    assert_eq!(a / a, Galois16::new(1));
}

#[test]
fn galois16_checked_division_by_zero_returns_none() {
    let a = Galois16::new(5);
    let zero = Galois16::new(0);
    assert_eq!(a.checked_div(zero), None);
}

#[test]
fn galois16_checked_division_zero_by_nonzero_is_zero() {
    let zero = Galois16::new(0);
    let a = Galois16::new(5);
    assert_eq!(zero.checked_div(a), Some(Galois16::new(0)));
}

#[test]
fn galois16_checked_division_normal_cases() {
    let a = Galois16::new(100);
    let b = Galois16::new(25);
    let result = a.checked_div(b).unwrap();
    assert_eq!(result * b, a);
    assert_eq!(a.checked_div(a), Some(Galois16::new(1)));
}

#[test]
fn galois16_zero_divided_by_nonzero_is_zero() {
    let zero = Galois16::new(0);
    let a = Galois16::new(5);
    assert_eq!(zero / a, zero);
}

#[test]
fn galois16_power_zero_exponent() {
    let a = Galois16::new(5);
    assert_eq!(a.pow(0), Galois16::new(1));
}

#[test]
fn galois16_power_one_exponent() {
    let a = Galois16::new(123);
    assert_eq!(a.pow(1), a);
}

#[test]
fn galois16_power_two_equals_multiplication() {
    let base = Galois16::new(2);
    let squared = base.pow(2);
    assert_eq!(squared, base * base);
}

#[test]
fn galois16_power_of_zero() {
    let zero = Galois16::new(0);
    assert_eq!(zero.pow(5), zero);
    assert_eq!(zero.pow(100), zero);
}

#[test]
fn galois16_power_properties() {
    let a = Galois16::new(3);
    assert_eq!(a.pow(2) * a.pow(3), a.pow(5));
}

#[test]
fn galois16_log_antilog_roundtrip() {
    let a = Galois16::new(42);
    let log_val = a.log();
    let antilog_val = Galois16::new(log_val).antilog();
    assert_eq!(antilog_val, a.value());
}

#[test]
fn galois16_alog_equals_antilog() {
    let a = Galois16::new(10);
    assert_eq!(a.alog(), a.antilog());
}

#[test]
fn galois16_add_assign() {
    let mut a = Galois16::new(0x1234);
    let b = Galois16::new(0x5678);
    let expected = a + b;
    a += b;
    assert_eq!(a, expected);
}

#[test]
fn galois16_sub_assign() {
    let mut a = Galois16::new(0x1234);
    let b = Galois16::new(0x5678);
    let expected = a - b;
    a -= b;
    assert_eq!(a, expected);
}

#[test]
fn galois16_mul_assign() {
    let mut a = Galois16::new(7);
    let b = Galois16::new(13);
    let expected = a * b;
    a *= b;
    assert_eq!(a, expected);
}

#[test]
fn galois16_div_assign() {
    let mut a = Galois16::new(42);
    let b = Galois16::new(7);
    let expected = a / b;
    a /= b;
    assert_eq!(a, expected);
}

#[test]
fn galois16_from_u16() {
    let val: Galois16 = 0x1234u16.into();
    assert_eq!(val.value(), 0x1234);
}

#[test]
fn galois16_into_u16() {
    let g = Galois16::new(0x5678);
    let val: u16 = g.into();
    assert_eq!(val, 0x5678);
}

#[test]
fn galois16_display() {
    let g = Galois16::new(12345);
    assert_eq!(g.to_string(), "12345");
}

#[test]
fn gcd_basic_cases() {
    assert_eq!(gcd(48, 18), 6);
    assert_eq!(gcd(65535, 7), 1);
    assert_eq!(gcd(100, 50), 50);
}

#[test]
fn gcd_coprime_numbers() {
    assert_eq!(gcd(17, 19), 1);
    assert_eq!(gcd(65535, 2), 1);
}

#[test]
fn galois_gcd_with_zero() {
    assert_eq!(gcd(0, 5), 0);
    assert_eq!(gcd(5, 0), 0);
    assert_eq!(gcd(0, 0), 0);
}

#[test]
fn galois_gcd_identical_numbers() {
    assert_eq!(gcd(42, 42), 42);
    assert_eq!(gcd(1, 1), 1);
    assert_eq!(gcd(65535, 65535), 65535);
}

#[test]
fn gcd_commutative() {
    assert_eq!(gcd(48, 18), gcd(18, 48));
    assert_eq!(gcd(100, 35), gcd(35, 100));
}

#[test]
fn gcd_with_one() {
    assert_eq!(gcd(1, 100), 1);
    assert_eq!(gcd(12345, 1), 1);
}

#[test]
fn gcd_powers_of_two() {
    assert_eq!(gcd(16, 64), 16);
    assert_eq!(gcd(128, 32), 32);
}

#[test]
fn galois16_multiplication_by_generator_matches_shift() {
    // x * x^15 wraps around through the reduction polynomial.
    let x = Galois16::new(2);
    let top = Galois16::new(0x8000);
    assert_eq!((x * top).value(), 0x100B);
}

#[test]
fn every_nonzero_element_divides_back_and_has_a_log() {
    let table = GaloisTable::new();
    let b = Galois16::new(0xbeef);
    for v in 1..COUNT {
        let a = Galois16::new(v as u16);
        assert_eq!(a / a, Galois16::new(1));
        assert_eq!((b * a) / a, b);
        assert_eq!(a.pow(65535), Galois16::new(1));
        let l = table.log[v] as usize;
        assert!(l < LIMIT);
        assert_eq!(table.log[table.antilog[l] as usize] as usize, l);
    }
}
