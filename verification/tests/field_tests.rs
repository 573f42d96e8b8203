use elliptic_curves::field::F;

#[test]
fn new_normalizes_into_range() {
    for v in -30i64..30i64 {
        assert!(F::new(7, v).x < 7);
        assert!(F::new(757, v).x < 757);
    }
    assert!(F::new(7, i64::MIN).x < 7);
    assert!(F::new(7, i64::MAX).x < 7);
}

#[test]
fn new_reduces_exactly() {
    assert_eq!(F::new(7, -3).x, 4);
    assert_eq!(F::new(7, -7).x, 0);
    assert_eq!(F::new(7, 7).x, 0);
    assert_eq!(F::new(7, 20).x, 6);
    assert_eq!(F::new(7, 0).x, 0);
    assert_eq!(F::new(7, i64::MIN).x, 6);
    assert_eq!(F::new(7, i64::MAX).x, 0);
}

#[test]
fn add_neg_is_zero() {
    for v in 0i64..7i64 {
        let x = F::new(7, v);
        assert_eq!(x.add(x.neg()), F::new(7, 0));
    }
}

#[test]
fn neg_zero_is_zero() {
    assert_eq!(F::new(7, 0).neg(), F::new(7, 0));
}

#[test]
fn mul_inv_is_one() {
    for v in 1i64..7i64 {
        let x = F::new(7, v);
        assert_eq!(x.mul(x.inv()), F::new(7, 1));
    }
    for v in 1i64..100i64 {
        let x = F::new(757, v);
        assert_eq!(x.mul(x.inv()), F::new(757, 1));
    }
}

#[test]
fn inv_of_three_mod_seven() {
    assert_eq!(F::new(7, 3).inv(), F::new(7, 5));
}

#[test]
fn inv_at_largest_modulus() {
    // 2^31 - 1 is prime; the inverse of 2 is 2^30.
    let p: u64 = 0x7FFF_FFFF;
    let two = F::new(p, 2);
    assert_eq!(two.inv(), F::new(p, 0x4000_0000));
    assert_eq!(two.mul(two.inv()), F::new(p, 1));
    assert_eq!(F::new(p, -1).x, p - 1);
}

#[test]
fn add_is_associative_and_commutative() {
    for a in 0i64..7i64 {
        for b in 0i64..7i64 {
            let x = F::new(7, a);
            let y = F::new(7, b);
            assert_eq!(x.add(y), y.add(x));
            for c in 0i64..7i64 {
                let z = F::new(7, c);
                assert_eq!(x.add(y).add(z), x.add(y.add(z)));
            }
        }
    }
}

#[test]
fn mul_is_associative_commutative_distributive() {
    for a in 0i64..7i64 {
        for b in 0i64..7i64 {
            let x = F::new(7, a);
            let y = F::new(7, b);
            assert_eq!(x.mul(y), y.mul(x));
            for c in 0i64..7i64 {
                let z = F::new(7, c);
                assert_eq!(x.mul(y).mul(z), x.mul(y.mul(z)));
                assert_eq!(x.mul(y.add(z)), x.mul(y).add(x.mul(z)));
            }
        }
    }
}

#[test]
fn smallest_moduli_work() {
    assert_eq!(F::new(2, 5).x, 1);
    assert_eq!(F::new(2, -1).x, 1);
    assert_eq!(F::new(2, 1).add(F::new(2, 1)), F::new(2, 0));
    assert_eq!(F::new(2, 1).inv(), F::new(2, 1));
    assert_eq!(F::new(3, 2).inv(), F::new(3, 2));
    assert_eq!(F::new(3, 2).mul(F::new(3, 2)), F::new(3, 1));
}

#[test]
fn identities_hold() {
    for v in 0i64..7i64 {
        let x = F::new(7, v);
        assert_eq!(x.add(F::new(7, 0)), x);
        assert_eq!(x.mul(F::new(7, 1)), x);
    }
}
