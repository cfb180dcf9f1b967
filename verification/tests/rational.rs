use loopslcr::Rational;

fn r(n: i128, d: i128) -> Rational {
    Rational::new(n, d)
}

#[test]
fn normalises_on_construction() {
    assert_eq!(r(2, 4), r(1, 2));
    assert_eq!(r(-6, 8), r(-3, 4));
    assert_eq!(r(0, 5), Rational::zero());
    // Sign always migrates to the numerator.
    let x = r(1, -2);
    assert_eq!(x.num(), -1);
    assert_eq!(x.den(), 2);
}

#[test]
fn arithmetic_is_exact() {
    assert_eq!(r(1, 3) + r(1, 6), r(1, 2));
    assert_eq!(r(1, 3) - r(1, 3), Rational::zero());
    assert_eq!(r(2, 3) * r(3, 4), r(1, 2));
    assert_eq!(r(2, 3) / r(4, 9), r(3, 2));
    // The classic float failure, exact here.
    let tenth = r(1, 10);
    let sum = (0..10).fold(Rational::zero(), |a, _| a + tenth);
    assert_eq!(sum, Rational::one());
}

#[test]
fn round_half_up_ties_go_upward() {
    assert_eq!(r(1, 2).round_half_up(), 1);
    assert_eq!(r(3, 2).round_half_up(), 2);
    assert_eq!(r(5, 2).round_half_up(), 3); // not half-to-even
    assert_eq!(r(-1, 2).round_half_up(), 0); // toward +inf
    assert_eq!(r(-3, 2).round_half_up(), -1);
    assert_eq!(r(1, 3).round_half_up(), 0);
    assert_eq!(r(2, 3).round_half_up(), 1);
    assert_eq!(r(-2, 3).round_half_up(), -1);
    assert_eq!(r(7, 1).round_half_up(), 7);
}

#[test]
fn floor_and_ceil() {
    assert_eq!(r(7, 2).floor(), 3);
    assert_eq!(r(7, 2).ceil(), 4);
    assert_eq!(r(-7, 2).floor(), -4);
    assert_eq!(r(-7, 2).ceil(), -3);
    assert_eq!(r(4, 2).floor(), 2);
    assert_eq!(r(4, 2).ceil(), 2);
}

#[test]
fn ordering() {
    assert!(r(1, 3) < r(1, 2));
    assert!(r(-1, 3) < r(1, 300));
    assert!(r(103, 1) > r(1029, 10));
    let mut v = vec![r(1, 2), r(1, 3), r(2, 3)];
    v.sort_by(|a, b| a.partial_cmp(b).unwrap());
    assert_eq!(v, vec![r(1, 3), r(1, 2), r(2, 3)]);
}

#[test]
fn associativity_over_a_sweep() {
    for a in 1..12i128 {
        for b in 1..12i128 {
            for c in 1..12i128 {
                let (x, y, z) = (r(a, b), r(b, c), r(c, a));
                assert_eq!((x + y) + z, x + (y + z));
                assert_eq!((x * y) * z, x * (y * z));
                assert_eq!(x * (y + z), x * y + x * z);
                assert_eq!((x / y) * y, x);
            }
        }
    }
}

#[test]
fn survives_large_magnitudes() {
    // The shape of a real cut-point computation, several orders of
    // magnitude beyond anything the tool will actually see.
    let big = r(i64::MAX as i128, 3);
    let back = (big * r(7, 11)) / r(7, 11);
    assert_eq!(back, big);
}

#[test]
fn rational_display() {
    assert_eq!(r(3, 4).to_string(), "3/4");
    assert_eq!(r(8, 4).to_string(), "2");
    assert_eq!(r(-1, 2).to_string(), "-1/2");
}

#[test]
fn the_exact_operations_agree_with_the_operators() {
    assert_eq!(r(1, 3).plus(r(1, 6)), r(1, 2));
    assert_eq!(r(1, 3).minus(r(1, 2)), r(-1, 6));
    assert_eq!(r(2, 3).times(r(3, 4)), r(1, 2));
    assert_eq!(r(2, 3).divided_by(r(4, 9)), r(3, 2));
    assert_eq!(-r(2, 3), r(-2, 3));
    assert_eq!(r(-2, 3).negated(), r(2, 3));
    assert_eq!(r(-2, 3).abs(), r(2, 3));
    assert_eq!(r(-2, 3).recip(), r(-3, 2));
}

#[test]
fn conversions_and_predicates() {
    assert_eq!(Rational::from(7i128), Rational::from_int(7));
    assert_eq!(Rational::from(7u32), Rational::from_int(7));
    assert_eq!(Rational::from(7u64), Rational::from_int(7));
    assert!(r(4, 2).is_integer());
    assert!(!r(1, 2).is_integer());
    assert!(r(0, 9).is_zero());
    assert!(r(-1, 9).is_negative());
    assert!(!r(1, 9).is_negative());
}

#[test]
fn comparison_is_exact_at_the_edges_of_i128() {
    let a = Rational::new(i128::MAX, i128::MAX - 1);
    let b = Rational::new(i128::MAX - 1, i128::MAX - 2);
    // (M/(M-1)) < ((M-1)/(M-2)), though the cross products overflow i128.
    assert!(a < b);
    assert!(!(b < a));
    assert!(Rational::new(i128::MIN, 1) < Rational::new(i128::MAX, 1));
}

#[test]
fn gcd_of_zero_and_zero_is_one() {
    assert_eq!(loopslcr::rational::gcd(0, 0), 1);
    assert_eq!(loopslcr::rational::gcd(12, 18), 6);
    assert_eq!(loopslcr::rational::gcd(0, 5), 5);
}

#[test]
fn a_product_that_would_leave_i128_is_seen_coming() {
    let big = Rational::from_int(i128::MAX / 2);
    assert!(big.fits_times(Rational::from_int(2)));
    assert!(!big.fits_times(Rational::from_int(3)));
    // Cross-reduction first: (MAX/2) · (1 / (MAX/2)) is one, and fits.
    assert!(big.fits_times(Rational::new(1, i128::MAX / 2)));
}

#[test]
fn a_sum_that_would_leave_i128_is_seen_coming() {
    assert!(r(1, 2).fits_plus(r(1, 3)));
    assert!(r(i128::MAX - 1, 1).fits_plus(r(1, 1)));
    assert!(!r(i128::MAX, 1).fits_plus(r(1, 1)));
    assert!(r(i128::MAX, 1).fits_plus(r(-1, 1)));
    // The common denominator itself can overflow.
    let big = i128::MAX / 2;
    assert!(!r(1, big).fits_plus(r(1, big - 2)));
}

#[test]
fn ten_tenths_make_exactly_one() {
    let mut total = Rational::zero();
    for _ in 0..10 {
        total = total + r(1, 10);
    }
    assert_eq!(total, Rational::one());
    for a in 1..12i128 {
        for b in 1..12i128 {
            let (x, y) = (r(a, b), r(b, a + 1));
            assert_eq!(x + y, y + x);
            assert_eq!(x + Rational::zero(), x);
            assert_eq!(x - x, Rational::zero());
            assert!((x + y).den() > 0);
            assert_eq!(x * x.recip(), Rational::one());
            assert_eq!(x.recip().recip(), x);
        }
    }
}
