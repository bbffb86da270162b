use prime_field::{Field, Fp, OperationError};

fn fp(v: i32, m: i32) -> Fp {
    Fp::new(v, m).unwrap()
}

#[test]
fn sample_sum_difference_product() {
    let a = fp(23, 524269);
    let b = fp(123, 524269);
    assert_eq!(a.add(&b), Ok(fp(146, 524269)));
    assert_eq!(a.sub(&b), Ok(fp(524169, 524269)));
    assert_eq!(a.mul(&b), Ok(fp(2829, 524269)));
}

#[test]
fn sample_inverse_multiplies_to_one() {
    let a = fp(23, 524269);
    let u = a.inv().unwrap();
    assert_eq!(u, fp(296326, 524269));
    assert_eq!(a.mul(&u), Ok(fp(1, 524269)));
}

#[test]
fn sum_wraps_around_the_modulus() {
    assert_eq!(fp(8, 13).add(&fp(9, 13)), Ok(fp(4, 13)));
}

#[test]
fn results_stay_in_range() {
    let m = 13;
    for x in 0..m {
        for y in 0..m {
            let a = fp(x, m);
            let b = fp(y, m);
            for r in [a.add(&b).unwrap(), a.sub(&b).unwrap(), a.mul(&b).unwrap()] {
                assert!(0 <= r.value() && r.value() < m);
                assert_eq!(r.modulus(), m);
            }
            assert_eq!(a.add(&b).unwrap().value(), (x + y) % m);
            assert_eq!(a.sub(&b).unwrap().value(), (x - y + m) % m);
            assert_eq!(a.mul(&b).unwrap().value(), (x * y) % m);
        }
    }
}

#[test]
fn zero_is_neutral_for_addition() {
    for m in [2, 13, 524269] {
        let zero = fp(0, m);
        for v in [0, 1, m / 2, m - 1] {
            let a = fp(v, m);
            assert_eq!(a.add(&zero), Ok(a));
            assert_eq!(zero.add(&a), Ok(a));
        }
    }
}

#[test]
fn subtracting_an_element_from_itself_gives_zero() {
    for m in [2, 13, 524269, i32::MAX] {
        for v in [0, 1, m / 2, m - 1] {
            let a = fp(v, m);
            assert_eq!(a.sub(&a).unwrap().value(), 0);
            assert_eq!(a.sub(&a), Ok(fp(0, m)));
        }
    }
}

#[test]
fn addition_and_multiplication_commute() {
    let m = 17;
    for x in 0..m {
        for y in 0..m {
            let a = fp(x, m);
            let b = fp(y, m);
            assert_eq!(a.add(&b), b.add(&a));
            assert_eq!(a.mul(&b), b.mul(&a));
        }
    }
    let a = fp(23, 13);
    let b = fp(5, 7);
    assert_eq!(a.add(&b), b.add(&a));
    assert_eq!(a.mul(&b), b.mul(&a));
}

#[test]
fn addition_is_associative() {
    let m = 11;
    for x in 0..m {
        for y in 0..m {
            for z in 0..m {
                let (a, b, c) = (fp(x, m), fp(y, m), fp(z, m));
                let left = a.add(&b).unwrap().add(&c);
                let right = a.add(&b.add(&c).unwrap());
                assert_eq!(left, right);
            }
        }
    }
}

#[test]
fn one_is_neutral_for_multiplication() {
    let m = 524269;
    let one = fp(1, m);
    for v in [0, 1, 2, 262134, m - 1] {
        assert_eq!(fp(v, m).mul(&one), Ok(fp(v, m)));
    }
}

#[test]
fn every_nonzero_element_has_an_inverse() {
    for m in [2, 3, 13, 101] {
        for v in 1..m {
            let a = fp(v, m);
            let u = a.inv().unwrap();
            assert!(0 < u.value() && u.value() < m);
            assert_eq!(u.modulus(), m);
            assert_eq!(a.mul(&u).unwrap().value(), 1);
            assert_eq!(u.mul(&a), Ok(fp(1, m)));
        }
    }
}

#[test]
fn inverses_in_a_large_field() {
    let m = 524269;
    for v in [1, 2, 23, 123, 262134, m - 1] {
        let a = fp(v, m);
        let u = a.inv().unwrap();
        assert_eq!(a.mul(&u), Ok(fp(1, m)));
    }
    assert_eq!(fp(123, m).inv(), Ok(fp(85247, m)));
    assert_eq!(fp(1, m).inv(), Ok(fp(1, m)));
    assert_eq!(fp(m - 1, m).inv(), Ok(fp(m - 1, m)));
}

#[test]
fn inverse_differs_from_its_argument() {
    let a = fp(23, 524269);
    assert_ne!(a.inv(), Ok(a));
    assert_eq!(fp(2, 13).inv(), Ok(fp(7, 13)));
}

#[test]
fn zero_has_no_inverse() {
    for m in [2, 13, 524269, i32::MAX] {
        assert_eq!(fp(0, m).inv(), Err(OperationError::NotInvertible));
    }
}

#[test]
fn multiples_of_the_modulus_have_no_inverse() {
    assert_eq!(fp(26, 13).inv(), Err(OperationError::NotInvertible));
    assert_eq!(fp(13, 13).inv(), Err(OperationError::NotInvertible));
    assert_eq!(fp(-13, 13).inv(), Err(OperationError::NotInvertible));
    assert_eq!(fp(i32::MIN, 2).inv(), Err(OperationError::NotInvertible));
}

#[test]
fn unreduced_values_are_inverted_by_their_class() {
    assert_eq!(fp(14, 13).inv(), Ok(fp(1, 13)));
    assert_eq!(fp(-3, 13).inv(), Ok(fp(4, 13)));
    assert_eq!(fp(i32::MIN, 13).inv(), Ok(fp(7, 13)));
    assert_eq!(fp(i32::MAX, 13).inv(), fp(i32::MAX % 13, 13).inv());
}

#[test]
fn different_moduli_are_rejected() {
    let a = fp(3, 13);
    let b = fp(3, 17);
    assert_eq!(a.add(&b), Err(OperationError::IncompatibleOperands));
    assert_eq!(a.sub(&b), Err(OperationError::IncompatibleOperands));
    assert_eq!(a.mul(&b), Err(OperationError::IncompatibleOperands));
    assert_eq!(b.add(&a), Err(OperationError::IncompatibleOperands));
    assert_eq!(b.sub(&a), Err(OperationError::IncompatibleOperands));
    assert_eq!(b.mul(&a), Err(OperationError::IncompatibleOperands));
    assert!(!a.check_input(&b));
}

#[test]
fn values_out_of_range_are_rejected() {
    let good = fp(3, 13);
    for v in [13, 14, 100, -1, -13, i32::MIN, i32::MAX] {
        let bad = fp(v, 13);
        assert!(!good.check_input(&bad));
        assert!(!bad.check_input(&good));
        assert_eq!(good.add(&bad), Err(OperationError::IncompatibleOperands));
        assert_eq!(bad.add(&good), Err(OperationError::IncompatibleOperands));
        assert_eq!(good.sub(&bad), Err(OperationError::IncompatibleOperands));
        assert_eq!(bad.sub(&good), Err(OperationError::IncompatibleOperands));
        assert_eq!(good.mul(&bad), Err(OperationError::IncompatibleOperands));
        assert_eq!(bad.mul(&good), Err(OperationError::IncompatibleOperands));
    }
}

#[test]
fn reduced_operands_of_one_modulus_are_accepted() {
    assert!(fp(0, 13).check_input(&fp(12, 13)));
    assert!(fp(12, 13).check_input(&fp(0, 13)));
    assert!(fp(1, 2).check_input(&fp(1, 2)));
}

#[test]
fn wide_operands_do_not_overflow() {
    let m = i32::MAX;
    let a = fp(m - 1, m);
    assert_eq!(a.add(&a), Ok(fp(2147483645, m)));
    assert_eq!(a.mul(&a), Ok(fp(1, m)));
    assert_eq!(fp(0, m).sub(&a), Ok(fp(1, m)));
    assert_eq!(a.inv(), Ok(fp(2147483646, m)));
    assert_eq!(fp(2, m).inv(), Ok(fp(1073741824, m)));
    assert_eq!(fp(123456789, m).inv(), Ok(fp(391219981, m)));
}

#[test]
fn operations_leave_their_operands_unchanged() {
    let a = fp(23, 524269);
    let b = fp(123, 524269);
    let _ = a.add(&b);
    let _ = a.sub(&b);
    let _ = a.mul(&b);
    let _ = a.inv();
    assert_eq!(a, fp(23, 524269));
    assert_eq!(b, fp(123, 524269));
}
