use exact_simplex::fraction::Frac;

#[test]
fn gcd() {
    let frac = Frac::new(5, 10);
    assert_eq!(frac, Frac::new(1, 2));

    let frac = Frac::new(2, 2);
    assert_eq!(frac, Frac::new(1, 1));
}

#[test]
fn fraction_add() {
    let a = Frac::new(5, 7);
    let b = Frac::new(2, 7);
    assert_eq!(a + b, Frac::new(1, 1));

    let a = Frac::new(-5, 7);
    let b = Frac::new(-2, 7);
    assert_eq!(a + b, Frac::new(-1, 1));

    let a = Frac::new(-2, 7);
    let b = Frac::new(2, 7);
    assert_eq!(a + b, Frac::new(0, 1));
}

#[test]
fn sub() {
    let a = Frac::new(5, 7);
    let b = Frac::new(5, 7);
    assert_eq!(a - b, Frac::new(0, 1));

    let a = Frac::new(5, 7);
    let b = Frac::new(-2, 7);
    assert_eq!(a - b, Frac::new(1, 1));

    let a = Frac::new(-5, 7);
    let b = Frac::new(2, 7);
    assert_eq!(a - b, Frac::new(-1, 1));

    let a = Frac::new(-5, 7);
    let b = Frac::new(-5, 7);
    assert_eq!(a - b, Frac::new(0, 1));
}

#[test]
fn mul() {
    let a = Frac::new(6, 7);
    let b = Frac::new(7, 3);
    assert_eq!(a * b, Frac::new(2, 1));

    let a = Frac::new(-6, 7);
    let b = Frac::new(7, 3);
    assert_eq!(a * b, Frac::new(-2, 1));

    let a = Frac::new(6, 7);
    let b = Frac::new(7, -3);
    assert_eq!(a * b, Frac::new(-2, 1));

    let a = Frac::new(6, -7);
    let b = Frac::new(-7, 3);
    assert_eq!(a * b, Frac::new(2, 1));
}

#[test]
fn div() {
    let a = Frac::new(6, 7);
    let b = Frac::new(3, 7);
    assert_eq!(a / b, Frac::new(2, 1));

    let a = Frac::new(-6, 7);
    let b = Frac::new(3, 7);
    assert_eq!(a / b, Frac::new(-2, 1));

    let a = Frac::new(6, 7);
    let b = Frac::new(3, -7);
    assert_eq!(a / b, Frac::new(-2, 1));

    let a = Frac::new(6, -7);
    let b = Frac::new(-3, 7);
    assert_eq!(a / b, Frac::new(2, 1));
}

#[test]
fn zero() {
    let frac = Frac::new(0, 6);
    assert_eq!(frac, Frac::new(0, 4));
    assert_eq!(frac.num, 0);
    assert_eq!(frac.den, 1);

    let frac = Frac::new(6, 0);
    assert_eq!(frac, Frac::new(4, 0));
    assert_eq!(frac.num, 1);
    assert_eq!(frac.den, 0);

    let frac = Frac::new(0, 0);
    assert_eq!(frac.num, 0);
    assert_eq!(frac.den, 0);
}

#[test]
fn neg() {
    let frac = Frac::new(-1, 1);
    assert_eq!(frac, Frac::new(1, -1));

    let frac = Frac::new(-1, -1);
    assert_eq!(frac, Frac::new(1, 1));
}

#[test]
fn gcd_special_cases() {
    assert_eq!(Frac::gcd(0, 0), 1);
    assert_eq!(Frac::gcd(0, 9), 9);
    assert_eq!(Frac::gcd(12, 0), 12);
    assert_eq!(Frac::gcd(12, 18), 6);
    assert_eq!(Frac::gcd(17, 5), 1);
}

#[test]
fn new_reduces_magnitudes_and_sign() {
    let f = Frac::new(-12, 18);
    assert_eq!((f.num, f.den, f.neg), (2, 3, true));
    let f = Frac::new(i32::MIN, 2);
    assert_eq!((f.num, f.den, f.neg), (1 << 30, 1, true));
}

#[test]
fn from_u_reduces() {
    let f = Frac::from_u(10, 4, true);
    assert_eq!((f.num, f.den, f.neg), (5, 2, true));
    assert!(f.is_neg());
}

#[test]
fn from_i_has_unit_denominator() {
    let f = Frac::from_i(-7);
    assert_eq!((f.num, f.den, f.neg), (7, 1, true));
    assert_eq!(Frac::from_i(0), Frac::new(0, 1));
}

#[test]
fn add_equals_subtracting_negation() {
    let x = Frac::new(3, -4);
    let y = Frac::new(5, 6);
    assert_eq!(x + y, x - Frac::new(-5, 6));
    assert_eq!(x + y, y + x);
    assert_eq!(x + y, Frac::new(3 * 6 + 5 * -4, -4 * 6));
    assert_eq!(x + y, Frac::new(1, 12));
}

#[test]
fn times_inverse_is_one() {
    let x = Frac::new(-6, 35);
    let one = Frac::from_i(1);
    let r = x * (one / x);
    assert_eq!((r.num, r.den, r.neg), (1, 1, false));
}

#[test]
fn scaling_does_not_change_value() {
    assert_eq!(Frac::new(3 * 4, 3 * 10), Frac::new(4, 10));
    assert_eq!(Frac::new(-5 * 4, -5 * -10), Frac::new(4, -10));
}

#[test]
fn sign_laws_hold() {
    let (a, b) = (3, 8);
    assert_eq!(Frac::new(-a, b), -Frac::new(a, b));
    assert_eq!(Frac::new(-a, b), Frac::new(a, -b));
    assert_eq!(Frac::new(-a, -b), Frac::new(a, b));
}

#[test]
fn ordering_is_total() {
    let values = [Frac::new(-3, 4), Frac::new(1, 2), Frac::new(2, 4), Frac::new(5, 3)];
    for x in values.iter() {
        for y in values.iter() {
            let n = (x < y) as u8 + (x == y) as u8 + (x > y) as u8;
            assert_eq!(n, 1);
        }
    }
    assert!(Frac::new(-3, 4) < Frac::new(1, 2));
    assert!(Frac::new(5, 3) > Frac::new(1, 2));
    assert!(Frac::new(1, 2) >= Frac::new(2, 4));
}

#[test]
fn zero_numerator_normalizes() {
    let a = Frac::new(0, 6);
    let b = Frac::new(0, 4);
    assert_eq!((a.num, a.den), (0, 1));
    assert_eq!((b.num, b.den), (0, 1));
}

#[test]
fn zero_denominator_sentinel() {
    let f = Frac::new(6, 0);
    assert_eq!((f.num, f.den), (1, 0));
    let f = Frac::new(0, 0);
    assert_eq!((f.num, f.den), (0, 0));
}

#[test]
fn fit_checks() {
    let big = Frac::new(70000, 1);
    assert!(!big.mul_fits(big));
    assert!(big.mul_fits(Frac::new(3, 1)));
    assert!(!big.add_fits(Frac::new(i32::MAX, 1)));
    assert!(big.sub_fits(Frac::new(i32::MAX, 1)));
    assert!(!Frac::new(1, 70000).mul_fits(Frac::new(1, 70000)));
    assert!(!big.div_fits(Frac::new(1, 70000)));
    assert!(big.div_fits(big));
}
