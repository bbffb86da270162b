use prime_field::decimal::{decimal_string, signed_decimal_string};
use prime_field::{Field, Fp};

#[test]
fn element_is_written_as_value_mod_modulus() {
    assert_eq!(Fp::new(23, 524269).unwrap().to_string(), "23mod524269");
    assert_eq!(Fp::new(0, 2).unwrap().to_string(), "0mod2");
    assert_eq!(Fp::new(8, 13).unwrap().to_string(), "8mod13");
}

#[test]
fn negative_and_wide_values_are_written_in_full() {
    assert_eq!(Fp::new(-5, 7).unwrap().to_string(), "-5mod7");
    assert_eq!(Fp::new(i32::MIN, i32::MAX).unwrap().to_string(), "-2147483648mod2147483647");
    assert_eq!(Fp::new(i32::MAX, 3).unwrap().to_string(), "2147483647mod3");
}

#[test]
fn written_form_agrees_with_the_standard_formatter() {
    for v in [0, 1, 9, 10, 11, 99, 100, 101, 1000, 65535, 123456789, i32::MAX, -1, -10, i32::MIN] {
        let e = Fp::new(v, 524269).unwrap();
        assert_eq!(e.to_string(), format!("{}mod{}", v, 524269));
        assert_eq!(signed_decimal_string(v), format!("{}", v));
    }
}

#[test]
fn unsigned_numbers_in_decimal() {
    assert_eq!(decimal_string(0), "0");
    assert_eq!(decimal_string(7), "7");
    assert_eq!(decimal_string(10), "10");
    assert_eq!(decimal_string(1234567890), "1234567890");
    assert_eq!(decimal_string(u32::MAX), "4294967295");
    assert_eq!(decimal_string(2147483648), "2147483648");
}

#[test]
fn results_of_operations_can_be_written() {
    let a = Fp::new(23, 524269).unwrap();
    let b = Fp::new(123, 524269).unwrap();
    assert_eq!(a.add(&b).unwrap().to_string(), "146mod524269");
    assert_eq!(a.sub(&b).unwrap().to_string(), "524169mod524269");
    assert_eq!(a.mul(&b).unwrap().to_string(), "2829mod524269");
    assert_eq!(a.inv().unwrap().to_string(), "296326mod524269");
}
