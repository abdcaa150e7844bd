use stubfrac::{Error, Rational};

fn r(n: i64, d: i64) -> Rational {
    Rational::new(n, d).unwrap()
}

#[test]
fn reduces_and_normalises_sign() {
    assert_eq!(r(6, -8), r(-3, 4));
    assert_eq!(r(-6, -8).numer(), 3);
    assert_eq!(r(0, 7), Rational::zero());
    assert_eq!(r(0, 7).denom(), 1);
    assert_eq!(Rational::new(1, 0), Err(Error::ZeroDenominator));
}

#[test]
fn exact_arithmetic() {
    assert_eq!(
        r(61, 365).checked_add(r(121, 366)).unwrap(),
        r(66491, 133590)
    );
    assert_eq!(r(1, 2).checked_sub(r(1, 3)).unwrap(), r(1, 6));
    assert!(r(1, 3) < r(1, 2));
    assert!(r(-1, 2) < Rational::zero());
}

#[test]
fn overflow_is_reported_not_wrapped() {
    let big = r(i64::MAX, 1);
    assert_eq!(big.checked_add(Rational::one()), Err(Error::Overflow));
    // Consecutive integers are coprime, so the lcm is their product.
    let a = r(1, i64::MAX);
    let b = r(1, i64::MAX - 1);
    assert_eq!(a.checked_add(b), Err(Error::Overflow));
}

#[test]
fn decimal_rendering_rounds_half_up() {
    assert_eq!(r(66491, 133590).to_decimal(5), "0.49772");
    assert_eq!(r(1, 8).to_decimal(2), "0.13");
    assert_eq!(r(-1, 8).to_decimal(2), "-0.13");
    assert_eq!(r(1, 1000).to_decimal(2), "0.00");
    assert_eq!(r(7, 2).to_decimal(0), "4");
    assert_eq!(r(337, 368).to_decimal(5), "0.91576");
}
