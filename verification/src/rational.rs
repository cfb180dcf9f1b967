//! Exact rational arithmetic on `i128`.
//!
//! Every cut point in this crate derives from these. A value is always held in
//! its one reduced spelling — `den > 0` and `gcd(|num|, den) == 1` — so two
//! rationals are equal exactly when they are the same number.
//!
//! The mathematical model of a [`Rational`] is the pair `(num, den)` it holds;
//! [`canonical`] names the reduced spelling of any fraction, and every
//! operation is stated as the reduced spelling of the exact result.

use crate::text::{push_char, push_signed, signed_decimal};
use crate::arith::{
    abs, divides, lemma_coprime_divisors, lemma_coprime_product, lemma_divides_antisym,
    lemma_divides_elim, lemma_divides_intro, lemma_divides_le, lemma_euclid, lemma_gcd_commutes,
    lemma_gcd_divides, lemma_gcd_pos, lemma_gcd_quotients_coprime, spec_gcd,
};
use vstd::arithmetic::div_mod::*;
use vstd::arithmetic::mul::*;
use vstd::prelude::*;
use vstd::std_specs::cmp::PartialOrdSpecImpl;
use vstd::std_specs::convert::FromSpecImpl;
use vstd::std_specs::ops::{AddSpecImpl, DivSpecImpl, MulSpecImpl, NegSpecImpl, SubSpecImpl};

verus! {

/// Whether `x` fits in an `i128`.
pub open spec fn fits(x: int) -> bool {
    i128::MIN <= x <= i128::MAX
}

/// The reduced spelling of `n / d`: sign on the numerator, no common factor.
pub open spec fn canonical(n: int, d: int) -> (int, int)
    recommends
        d != 0,
{
    let (n, d) = if d < 0 {
        (-n, -d)
    } else {
        (n, d)
    };
    let g = spec_gcd(abs(n), d as nat) as int;
    (n / g, d / g)
}

/// Whether a pair is already in reduced spelling.
pub open spec fn is_canonical(p: (int, int)) -> bool {
    p.1 > 0 && spec_gcd(abs(p.0), p.1 as nat) == 1
}

/// Two fractions name the same number.
pub open spec fn same_value(p: (int, int), q: (int, int)) -> bool {
    p.0 * q.1 == q.0 * p.1
}

/// The exact sum, reduced.
pub open spec fn sum(a: (int, int), b: (int, int)) -> (int, int) {
    canonical(a.0 * b.1 + b.0 * a.1, a.1 * b.1)
}

/// The exact product, reduced.
pub open spec fn product(a: (int, int), b: (int, int)) -> (int, int) {
    canonical(a.0 * b.0, a.1 * b.1)
}

/// The exact quotient, reduced.
pub open spec fn quotient(a: (int, int), b: (int, int)) -> (int, int) {
    canonical(a.0 * b.1, a.1 * b.0)
}

/// The exact difference, reduced.
pub open spec fn difference(a: (int, int), b: (int, int)) -> (int, int) {
    canonical(a.0 * b.1 - b.0 * a.1, a.1 * b.1)
}

/// `p <= q` as numbers, for positive denominators.
pub open spec fn value_le(p: (int, int), q: (int, int)) -> bool {
    p.0 * q.1 <= q.0 * p.1
}

/// `p < q` as numbers, for positive denominators.
pub open spec fn value_lt(p: (int, int), q: (int, int)) -> bool {
    p.0 * q.1 < q.0 * p.1
}

/// Largest integer not above `n / d`, for a positive `d`.
pub open spec fn floor_of(p: (int, int)) -> int {
    p.0 / p.1
}

/// Smallest integer not below `n / d`, for a positive `d`.
pub open spec fn ceil_of(p: (int, int)) -> int {
    -((-p.0) / p.1)
}

/// Nearest integer to `n / d`, ties toward positive infinity: `floor(x + 1/2)`.
pub open spec fn round_half_up_of(p: (int, int)) -> int {
    (2 * p.0 + p.1) / (2 * p.1)
}

/// The reduced spelling names the same number, and is reduced.
pub proof fn lemma_canonical(n: int, d: int)
    requires
        d != 0,
    ensures
        is_canonical(canonical(n, d)),
        same_value(canonical(n, d), (n, d)),
        abs(canonical(n, d).0) <= abs(n),
        canonical(n, d).1 <= abs(d),
        n == 0 ==> canonical(n, d) == (0int, 1int),
{
    let (m, e) = if d < 0 {
        (-n, -d)
    } else {
        (n, d)
    };
    let g = spec_gcd(abs(m), e as nat);
    lemma_gcd_quotients_coprime(abs(m), e as nat);
    lemma_gcd_divides(abs(m), e as nat);
    let gi = g as int;
    lemma_divides_elim(e, gi);
    let p = m / gi;
    let q = e / gi;
    // |m| is g times |p|, whatever the sign.
    assert(divides(gi, m)) by {
        if m < 0 {
            lemma_divides_elim(-m, gi);
            let k = (-m) / gi;
            assert(m == gi * (-k)) by (nonlinear_arith)
                requires
                    -m == gi * k,
            ;
            lemma_divides_intro(m, gi, -k);
        }
    }
    lemma_divides_elim(m, gi);
    assert(abs(m) / g == abs(p)) by {
        if m < 0 {
            assert(-m == gi * (-p)) by (nonlinear_arith)
                requires
                    m == gi * p,
            ;
            lemma_div_multiples_vanish(-p, gi);
        } else {
            lemma_div_multiples_vanish(p, gi);
        }
    }
    assert(q > 0) by (nonlinear_arith)
        requires
            e == gi * q,
            e > 0,
            gi > 0,
    ;
    assert(p * d == n * q) by (nonlinear_arith)
        requires
            m == gi * p,
            e == gi * q,
            (d < 0 ==> m == -n && e == -d),
            (d >= 0 ==> m == n && e == d),
    ;
    assert(abs(p) <= abs(n)) by (nonlinear_arith)
        requires
            m == gi * p,
            gi >= 1,
            abs(m) == abs(n),
    ;
    assert(q <= abs(d)) by (nonlinear_arith)
        requires
            e == gi * q,
            gi >= 1,
            e == abs(d),
            q > 0,
    ;
    if n == 0 {
        assert(m == 0);
        assert(g == e) by {
            lemma_gcd_commutes(0, e as nat);
        }
        lemma_div_by_self(e);
    }
}

/// Reducing a reduced fraction changes nothing.
pub proof fn lemma_canonical_of_canonical(p: (int, int))
    requires
        is_canonical(p),
    ensures
        canonical(p.0, p.1) == p,
{
    lemma_div_multiples_vanish(p.0, 1);
    lemma_div_multiples_vanish(p.1, 1);
    assert(1 * p.0 == p.0 && 1 * p.1 == p.1);
}

/// Two reduced fractions that name the same number are the same pair.
pub proof fn lemma_canonical_unique(p: (int, int), q: (int, int))
    requires
        is_canonical(p),
        is_canonical(q),
        same_value(p, q),
    ensures
        p == q,
{
    let (n1, d1) = p;
    let (n2, d2) = q;
    let a1 = abs(n1);
    let a2 = abs(n2);
    assert(a1 * d2 == a2 * d1) by (nonlinear_arith)
        requires
            n1 * d2 == n2 * d1,
            d1 > 0,
            d2 > 0,
            a1 == abs(n1),
            a2 == abs(n2),
    ;
    // d1 | a1 d2 and gcd(a1, d1) == 1, so d1 | d2; and the other way round.
    lemma_divides_intro((a1 * d2) as int, d1, a2 as int);
    lemma_euclid(a1, d2 as nat, d1 as nat);
    lemma_divides_intro((a2 * d1) as int, d2, a1 as int);
    lemma_euclid(a2, d1 as nat, d2 as nat);
    lemma_divides_antisym(d1, d2);
    assert(n1 == n2) by (nonlinear_arith)
        requires
            n1 * d2 == n2 * d1,
            d1 == d2,
            d1 > 0,
    ;
}

/// The reduced spelling depends only on the number named.
pub proof fn lemma_canonical_respects_value(n1: int, d1: int, n2: int, d2: int)
    requires
        d1 != 0,
        d2 != 0,
        n1 * d2 == n2 * d1,
    ensures
        canonical(n1, d1) == canonical(n2, d2),
{
    lemma_canonical(n1, d1);
    lemma_canonical(n2, d2);
    let c1 = canonical(n1, d1);
    let c2 = canonical(n2, d2);
    assert(c1.0 * c2.1 == c2.0 * c1.1) by (nonlinear_arith)
        requires
            c1.0 * d1 == n1 * c1.1,
            c2.0 * d2 == n2 * c2.1,
            n1 * d2 == n2 * d1,
            d1 != 0,
            d2 != 0,
    ;
    lemma_canonical_unique(c1, c2);
}

/// An exact rational number, always held in reduced spelling.
#[derive(Copy, Clone, Debug, PartialEq, Eq, Structural, Hash)]
pub struct Rational {
    num: i128,
    den: i128,
}

impl View for Rational {
    type V = (int, int);

    /// The pair `(numerator, denominator)`, as mathematical integers.
    closed spec fn view(&self) -> (int, int) {
        (self.num as int, self.den as int)
    }
}

impl Rational {
    /// Reduced spelling, and small enough for every `i128` operation here.
    pub open spec fn wf(self) -> bool {
        is_canonical(self@) && fits(self@.0) && fits(self@.1)
    }

    /// Two rationals with the same model are the same value.
    pub proof fn lemma_view_injective(a: Rational, b: Rational)
        requires
            a@ == b@,
        ensures
            a == b,
    {
    }

    /// A rational's model always fits in `i128`.
    pub proof fn lemma_view_fits(a: Rational)
        ensures
            fits(a@.0),
            fits(a@.1),
    {
    }
}


/// The inputs of [`Rational::plus`] for which no intermediate leaves `i128`.
pub open spec fn sum_fits(a: (int, int), b: (int, int)) -> bool {
    let g = spec_gcd(a.1 as nat, b.1 as nat) as int;
    let p = a.1 / g;
    let q = b.1 / g;
    fits(p * b.1) && fits(a.0 * q) && fits(b.0 * p) && fits(a.0 * q + b.0 * p)
}

/// The inputs of [`Rational::times`] for which no intermediate leaves `i128`.
pub open spec fn product_fits(a: (int, int), b: (int, int)) -> bool {
    let g1 = spec_gcd(abs(a.0), b.1 as nat) as int;
    let g2 = spec_gcd(abs(b.0), a.1 as nat) as int;
    fits((a.0 / g1) * (b.0 / g2)) && fits((a.1 / g2) * (b.1 / g1))
}

/// The reciprocal's reduced spelling.
pub open spec fn reciprocal(a: (int, int)) -> (int, int) {
    canonical(a.1, a.0)
}

/// `|n|` as an unsigned value; `i128::MIN` included.
fn magnitude(n: i128) -> (r: u128)
    ensures
        r == abs(n as int),
{
    if n < 0 {
        ((-(n + 1)) as u128) + 1
    } else {
        n as u128
    }
}

/// Euclid's algorithm; `1` when both arguments are zero.
pub fn gcd(a: u128, b: u128) -> (r: u128)
    ensures
        r == (if spec_gcd(a as nat, b as nat) == 0 {
            1
        } else {
            spec_gcd(a as nat, b as nat)
        }),
{
    let mut x = a;
    let mut y = b;
    while y != 0
        invariant
            spec_gcd(x as nat, y as nat) == spec_gcd(a as nat, b as nat),
        decreases y,
    {
        let t = x % y;
        x = y;
        y = t;
    }
    if x == 0 {
        1
    } else {
        x
    }
}

/// `a / b` for a positive `b`, floor division.
fn div_floor(a: i128, b: i128) -> (r: i128)
    requires
        b > 0,
    ensures
        r == a as int / b as int,
{
    proof {
        lemma_div_is_ordered_by_denominator_helper(a as int, b as int);
    }
    match a.checked_div_euclid(b) {
        Some(q) => q,
        None => 0,
    }
}

/// `a mod b` for a positive `b`, always in `[0, b)`.
fn rem_floor(a: i128, b: i128) -> (r: i128)
    requires
        b > 0,
    ensures
        r == a as int % b as int,
{
    proof {
        lemma_mod_bound(a as int, b as int);
    }
    match a.checked_rem_euclid(b) {
        Some(m) => m,
        None => 0,
    }
}

/// Floor division by a positive number stays between `a` and `0`.
proof fn lemma_div_is_ordered_by_denominator_helper(a: int, b: int)
    requires
        b > 0,
    ensures
        fits(a) ==> fits(a / b),
{
    if a >= 0 {
        lemma_div_pos_is_pos(a, b);
        lemma_div_is_ordered_by_denominator(a, 1, b);
        lemma_div_by_one_is_identity(a);
    } else {
        lemma_fundamental_div_mod(a, b);
        lemma_mod_bound(a, b);
        let q = a / b;
        assert(a <= q && q < 0) by (nonlinear_arith)
            requires
                a == b * q + a % b,
                0 <= a % b < b,
                b > 0,
                a < 0,
        ;
    }
}

proof fn lemma_div_by_one_is_identity(a: int)
    ensures
        a / 1 == a,
{
    lemma_div_multiples_vanish(a, 1);
    assert(1 * a == a);
}

/// The product of two reduced fractions, cross-reduced first, is reduced.
proof fn lemma_product_reduced(a: (int, int), b: (int, int))
    requires
        is_canonical(a),
        is_canonical(b),
    ensures
        ({
            let g1 = spec_gcd(abs(a.0), b.1 as nat) as int;
            let g2 = spec_gcd(abs(b.0), a.1 as nat) as int;
            let r = ((a.0 / g1) * (b.0 / g2), (a.1 / g2) * (b.1 / g1));
            &&& g1 > 0
            &&& g2 > 0
            &&& is_canonical(r)
            &&& r == product(a, b)
        }),
{
    let g1 = spec_gcd(abs(a.0), b.1 as nat);
    let g2 = spec_gcd(abs(b.0), a.1 as nat);
    lemma_gcd_quotients_coprime(abs(a.0), b.1 as nat);
    lemma_gcd_quotients_coprime(abs(b.0), a.1 as nat);
    lemma_gcd_divides(abs(a.0), b.1 as nat);
    lemma_gcd_divides(abs(b.0), a.1 as nat);
    let gi1 = g1 as int;
    let gi2 = g2 as int;
    let x = a.0 / gi1;
    let y = b.1 / gi1;
    let u = b.0 / gi2;
    let v = a.1 / gi2;
    // Exact quotients, sign carried by the numerators.
    lemma_quotient_of_signed(a.0, gi1);
    lemma_quotient_of_signed(b.0, gi2);
    lemma_divides_elim(b.1, gi1);
    lemma_divides_elim(a.1, gi2);
    assert(y > 0 && v > 0) by (nonlinear_arith)
        requires
            b.1 == gi1 * y,
            a.1 == gi2 * v,
            b.1 > 0,
            a.1 > 0,
            gi1 > 0,
            gi2 > 0,
    ;
    let ax = abs(x);
    let au = abs(u);
    // gcd(|x|, y) and gcd(|u|, v): the quotients by the gcd.
    assert(spec_gcd(ax, y as nat) == 1);
    assert(spec_gcd(au, v as nat) == 1);
    // gcd(|x|, v): divisors of the coprime |a.0| and a.1.
    lemma_divides_intro(a.1, v, gi2);
    assert(a.1 == v * gi2) by (nonlinear_arith)
        requires
            a.1 == gi2 * v,
    ;
    lemma_divides_intro(a.1, v, gi2);
    if ax > 0 {
        assert(abs(a.0) == ax * g1) by (nonlinear_arith)
            requires
                abs(a.0) == g1 * ax,
        ;
        lemma_divides_intro(abs(a.0) as int, ax as int, gi1);
    }
    assert(ax == 0 ==> abs(a.0) == 0) by (nonlinear_arith)
        requires
            abs(a.0) == g1 * ax,
    ;
    lemma_coprime_divisors(abs(a.0), a.1 as nat, ax, v as nat);
    // gcd(|u|, y): divisors of the coprime |b.0| and b.1.
    assert(b.1 == y * gi1) by (nonlinear_arith)
        requires
            b.1 == gi1 * y,
    ;
    lemma_divides_intro(b.1, y, gi1);
    if au > 0 {
        assert(abs(b.0) == au * g2) by (nonlinear_arith)
            requires
                abs(b.0) == g2 * au,
        ;
        lemma_divides_intro(abs(b.0) as int, au as int, gi2);
    }
    assert(au == 0 ==> abs(b.0) == 0) by (nonlinear_arith)
        requires
            abs(b.0) == g2 * au,
    ;
    lemma_coprime_divisors(abs(b.0), b.1 as nat, au, y as nat);
    // Combine: gcd(|x u|, v y) == 1.
    let big = ax * au;
    lemma_abs_mul(x, u);
    if big == 0 {
        // One numerator is zero, so its denominator is 1 and so is the result's.
        if ax == 0 {
            assert(a.0 == 0) by (nonlinear_arith)
                requires
                    abs(a.0) == g1 * ax,
                    ax == 0,
            ;
            lemma_gcd_commutes(0, a.1 as nat);
            assert(a.1 == 1);
            assert(v == 1) by (nonlinear_arith)
                requires
                    a.1 == gi2 * v,
                    v > 0,
                    gi2 > 0,
                    a.1 == 1,
            ;
            assert(y == 1) by {
                lemma_gcd_commutes(0, y as nat);
            }
        } else {
            assert(au == 0) by (nonlinear_arith)
                requires
                    ax * au == 0,
                    ax > 0,
            ;
            assert(b.0 == 0) by (nonlinear_arith)
                requires
                    abs(b.0) == g2 * au,
                    au == 0,
            ;
            lemma_gcd_commutes(0, b.1 as nat);
            assert(b.1 == 1);
            assert(y == 1) by (nonlinear_arith)
                requires
                    b.1 == gi1 * y,
                    y > 0,
                    gi1 > 0,
                    b.1 == 1,
            ;
            assert(v == 1) by {
                lemma_gcd_commutes(0, v as nat);
            }
        }
        assert(v * y == 1) by (nonlinear_arith)
            requires
                v == 1,
                y == 1,
        ;
        lemma_gcd_commutes(0, 1);
    } else {
        lemma_coprime_product(ax, au, v as nat);
        lemma_coprime_product(ax, au, y as nat);
        lemma_gcd_commutes(big, v as nat);
        lemma_gcd_commutes(big, y as nat);
        assert(v * y > 0) by (nonlinear_arith)
            requires
                v > 0,
                y > 0,
        ;
        lemma_coprime_product(v as nat, y as nat, big);
        lemma_gcd_commutes((v * y) as nat, big);
    }
    let r = (x * u, v * y);
    assert(v * y > 0) by (nonlinear_arith)
        requires
            v > 0,
            y > 0,
    ;
    assert(is_canonical(r));
    // Same value as the plain product, hence its reduced spelling.
    assert((x * u) * (a.1 * b.1) == (a.0 * b.0) * (v * y)) by (nonlinear_arith)
        requires
            a.0 == gi1 * x,
            b.0 == gi2 * u,
            a.1 == gi2 * v,
            b.1 == gi1 * y,
    ;
    assert(a.1 * b.1 != 0) by (nonlinear_arith)
        requires
            a.1 > 0,
            b.1 > 0,
    ;
    lemma_canonical_respects_value(r.0, r.1, a.0 * b.0, a.1 * b.1);
    lemma_canonical_of_canonical(r);
}

proof fn lemma_abs_mul(x: int, u: int)
    ensures
        abs(x * u) == abs(x) * abs(u),
{
    if x < 0 && u < 0 {
        assert(x * u == (-x) * (-u)) by (nonlinear_arith);
        assert((-x) * (-u) > 0) by (nonlinear_arith)
            requires
                x < 0,
                u < 0,
        ;
    } else if x < 0 {
        assert(x * u == -((-x) * u)) by (nonlinear_arith);
        assert((-x) * u >= 0) by (nonlinear_arith)
            requires
                x < 0,
                u >= 0,
        ;
    } else if u < 0 {
        assert(x * u == -(x * (-u))) by (nonlinear_arith);
        assert(x * (-u) >= 0) by (nonlinear_arith)
            requires
                x >= 0,
                u < 0,
        ;
    } else {
        assert(x * u >= 0) by (nonlinear_arith)
            requires
                x >= 0,
                u >= 0,
        ;
    }
}

/// Dividing a signed number by a positive divisor of its magnitude.
proof fn lemma_quotient_of_signed(n: int, g: int)
    requires
        divides(g, abs(n) as int),
    ensures
        n == g * (n / g),
        abs(n) == g * abs(n / g),
        abs(n / g) == abs(n) / (g as nat),
{
    lemma_divides_elim(abs(n) as int, g);
    let k = abs(n) as int / g;
    if n < 0 {
        assert(n == g * (-k)) by (nonlinear_arith)
            requires
                -n == g * k,
        ;
        lemma_div_multiples_vanish(-k, g);
        assert(n / g == -k);
        assert(k >= 0) by (nonlinear_arith)
            requires
                -n == g * k,
                n < 0,
                g > 0,
        ;
    } else {
        lemma_div_multiples_vanish(k, g);
        assert(k >= 0) by (nonlinear_arith)
            requires
                n == g * k,
                n >= 0,
                g > 0,
        ;
    }
}

impl Rational {
    /// The value with model `p`, which must fit.
    pub closed spec fn from_view(p: (int, int)) -> Rational {
        Rational { num: p.0 as i128, den: p.1 as i128 }
    }

    pub proof fn lemma_from_view(p: (int, int))
        requires
            fits(p.0),
            fits(p.1),
        ensures
            Rational::from_view(p)@ == p,
    {
    }

    /// `num / den`, reduced.
    ///
    /// A zero denominator has no value, and a negative one is moved to the
    /// numerator, which `i128::MIN` cannot survive.
    pub fn new(num: i128, den: i128) -> (r: Rational)
        requires
            den != 0,
            den < 0 ==> num != i128::MIN && den != i128::MIN,
        ensures
            r.wf(),
            r@ == canonical(num as int, den as int),
    {
        let (n, d) = if den < 0 {
            (-num, -den)
        } else {
            (num, den)
        };
        let g = gcd(magnitude(n), d as u128);
        proof {
            lemma_gcd_pos(abs(n as int), d as nat);
            lemma_gcd_divides(abs(n as int), d as nat);
            lemma_divides_le(spec_gcd(abs(n as int), d as nat) as int, d as int);
            lemma_canonical(num as int, den as int);
        }
        let g = g as i128;
        let r = Rational { num: div_floor(n, g), den: div_floor(d, g) };
        proof {
            lemma_canonical(num as int, den as int);
        }
        r
    }

    /// The integer `n`.
    pub fn from_int(n: i128) -> (r: Rational)
        ensures
            r.wf(),
            r@ == (n as int, 1int),
    {
        proof {
            lemma_gcd_one(abs(n as int));
        }
        Rational { num: n, den: 1 }
    }

    pub fn num(self) -> (r: i128)
        ensures
            r == self@.0,
    {
        self.num
    }

    pub fn den(self) -> (r: i128)
        ensures
            r == self@.1,
    {
        self.den
    }

    pub fn is_integer(self) -> (r: bool)
        ensures
            r == (self@.1 == 1),
    {
        self.den == 1
    }

    pub fn is_zero(self) -> (r: bool)
        ensures
            r == (self@.0 == 0),
    {
        self.num == 0
    }

    pub fn is_negative(self) -> (r: bool)
        ensures
            r == (self@.0 < 0),
    {
        self.num < 0
    }

    /// Multiplicative inverse, reduced. Zero has none.
    pub fn recip(self) -> (r: Rational)
        requires
            self.wf(),
            self@.0 != 0,
            self@.0 != i128::MIN,
        ensures
            r.wf(),
            r@ == reciprocal(self@),
    {
        Rational::new(self.den, self.num)
    }

    /// `|self|`. `i128::MIN` has no positive counterpart.
    pub fn abs(self) -> (r: Rational)
        requires
            self.wf(),
            self@.0 != i128::MIN,
        ensures
            r.wf(),
            r@ == (abs(self@.0) as int, self@.1),
    {
        let n = if self.num < 0 {
            -self.num
        } else {
            self.num
        };
        Rational { num: n, den: self.den }
    }

    /// `-self`. `i128::MIN` has no positive counterpart.
    pub fn negated(self) -> (r: Rational)
        requires
            self.wf(),
            self@.0 != i128::MIN,
        ensures
            r.wf(),
            r@ == (-self@.0, self@.1),
    {
        Rational { num: -self.num, den: self.den }
    }

    /// Nearest integer, ties toward positive infinity.
    ///
    /// Half-up rather than half-to-even so that a cut point is a pure function
    /// of the tempo, never of which side of the grid it happens to land on.
    pub fn round_half_up(self) -> (r: i128)
        requires
            self.wf(),
        ensures
            r == round_half_up_of(self@),
    {
        let q = div_floor(self.num, self.den);
        let m = rem_floor(self.num, self.den);
        proof {
            lemma_fundamental_div_mod(self.num as int, self.den as int);
            lemma_mod_bound(self.num as int, self.den as int);
        }
        if m >= self.den - m {
            proof {
                let n = self.num as int;
                let d = self.den as int;
                assert(q < i128::MAX) by (nonlinear_arith)
                    requires
                        n == d * q + m,
                        2 * m >= d,
                        m < d,
                        n <= i128::MAX,
                ;
                assert(2 * n + d == (q + 1) * (2 * d) + (2 * m - d)) by (nonlinear_arith)
                    requires
                        n == d * q + m,
                ;
                lemma_fundamental_div_mod_converse(2 * n + d, 2 * d, q + 1, 2 * m - d);
            }
            q + 1
        } else {
            proof {
                let n = self.num as int;
                let d = self.den as int;
                assert(2 * n + d == q * (2 * d) + (2 * m + d)) by (nonlinear_arith)
                    requires
                        n == d * q + m,
                ;
                lemma_fundamental_div_mod_converse(2 * n + d, 2 * d, q as int, 2 * m + d);
            }
            q
        }
    }

    /// Largest integer `<= self`.
    pub fn floor(self) -> (r: i128)
        requires
            self.wf(),
        ensures
            r == floor_of(self@),
    {
        div_floor(self.num, self.den)
    }

    /// Smallest integer `>= self`.
    pub fn ceil(self) -> (r: i128)
        requires
            self.wf(),
        ensures
            r == ceil_of(self@),
    {
        let q = div_floor(self.num, self.den);
        let m = rem_floor(self.num, self.den);
        proof {
            let n = self.num as int;
            let d = self.den as int;
            lemma_fundamental_div_mod(n, d);
            lemma_mod_bound(n, d);
            lemma_fundamental_div_mod(-n, d);
            lemma_mod_bound(-n, d);
            if m == 0 {
                assert(-n == (-q) * d + 0) by (nonlinear_arith)
                    requires
                        n == d * q + m,
                        m == 0,
                ;
                lemma_fundamental_div_mod_converse(-n, d, -q, 0);
            } else {
                assert(-n == (-q - 1) * d + (d - m)) by (nonlinear_arith)
                    requires
                        n == d * q + m,
                ;
                lemma_fundamental_div_mod_converse(-n, d, -q - 1, d - m);
            }
        }
        if m == 0 {
            q
        } else {
            proof {
                let n = self.num as int;
                let d = self.den as int;
                assert(q < i128::MAX) by (nonlinear_arith)
                    requires
                        n == d * q + m,
                        0 < m < d,
                        n <= i128::MAX,
                ;
            }
            q + 1
        }
    }
}

impl Rational {
    /// The exact product.
    ///
    /// Cross-reduced before multiplying, so intermediates stay small:
    /// `(a/b) · (c/d)` reduces `a` against `d` and `c` against `b` first. The
    /// result needs no further reduction.
    pub fn times(self, rhs: Rational) -> (r: Rational)
        requires
            self.wf(),
            rhs.wf(),
            product_fits(self@, rhs@),
        ensures
            r.wf(),
            r@ == product(self@, rhs@),
    {
        proof {
            lemma_product_reduced(self@, rhs@);
            lemma_gcd_divides(abs(self@.0), rhs@.1 as nat);
            lemma_gcd_divides(abs(rhs@.0), self@.1 as nat);
            lemma_divides_le(spec_gcd(abs(self@.0), rhs@.1 as nat) as int, rhs@.1);
            lemma_divides_le(spec_gcd(abs(rhs@.0), self@.1 as nat) as int, self@.1);
        }
        let g1 = gcd(magnitude(self.num), rhs.den as u128) as i128;
        let g2 = gcd(magnitude(rhs.num), self.den as u128) as i128;
        let num = div_floor(self.num, g1) * div_floor(rhs.num, g2);
        let den = div_floor(self.den, g2) * div_floor(rhs.den, g1);
        Rational { num, den }
    }

    /// Whether [`Rational::times`] can multiply these two without leaving
    /// `i128`: the same cross-reduction, with the two products checked.
    pub fn fits_times(self, rhs: Rational) -> (r: bool)
        requires
            self.wf(),
            rhs.wf(),
        ensures
            r == product_fits(self@, rhs@),
    {
        proof {
            lemma_gcd_divides(abs(self@.0), rhs@.1 as nat);
            lemma_gcd_divides(abs(rhs@.0), self@.1 as nat);
            lemma_divides_le(spec_gcd(abs(self@.0), rhs@.1 as nat) as int, rhs@.1);
            lemma_divides_le(spec_gcd(abs(rhs@.0), self@.1 as nat) as int, self@.1);
        }
        let g1 = gcd(magnitude(self.num), rhs.den as u128) as i128;
        let g2 = gcd(magnitude(rhs.num), self.den as u128) as i128;
        let num = div_floor(self.num, g1).checked_mul(div_floor(rhs.num, g2));
        let den = div_floor(self.den, g2).checked_mul(div_floor(rhs.den, g1));
        num.is_some() && den.is_some()
    }

    /// Whether [`Rational::plus`] can add these two without leaving `i128`:
    /// the same common denominator, with each product and the sum checked.
    pub fn fits_plus(self, rhs: Rational) -> (r: bool)
        requires
            self.wf(),
            rhs.wf(),
        ensures
            r == sum_fits(self@, rhs@),
    {
        proof {
            lemma_gcd_pos(self@.1 as nat, rhs@.1 as nat);
            lemma_gcd_divides(self@.1 as nat, rhs@.1 as nat);
            lemma_divides_le(spec_gcd(self@.1 as nat, rhs@.1 as nat) as int, self@.1);
        }
        let g = gcd(self.den as u128, rhs.den as u128) as i128;
        let p = div_floor(self.den, g);
        let q = div_floor(rhs.den, g);
        let lcm = p.checked_mul(rhs.den);
        let left = self.num.checked_mul(q);
        let right = rhs.num.checked_mul(p);
        match (lcm, left, right) {
            (Some(_), Some(l), Some(r)) => l.checked_add(r).is_some(),
            _ => false,
        }
    }

    /// The exact sum, reduced.
    pub fn plus(self, rhs: Rational) -> (r: Rational)
        requires
            self.wf(),
            rhs.wf(),
            sum_fits(self@, rhs@),
        ensures
            r.wf(),
            r@ == sum(self@, rhs@),
    {
        let ghost a = self@;
        let ghost b = rhs@;
        proof {
            lemma_gcd_pos(a.1 as nat, b.1 as nat);
            lemma_gcd_divides(a.1 as nat, b.1 as nat);
            lemma_divides_le(spec_gcd(a.1 as nat, b.1 as nat) as int, a.1);
        }
        let g = gcd(self.den as u128, rhs.den as u128) as i128;
        let p = div_floor(self.den, g);
        let q = div_floor(rhs.den, g);
        proof {
            lemma_divides_elim(a.1, g as int);
            lemma_divides_elim(b.1, g as int);
            assert(p * b.1 == a.1 * q && p * b.1 == b.1 * p) by (nonlinear_arith)
                requires
                    a.1 == g * p,
                    b.1 == g * q,
            ;
            assert(p > 0 && q > 0) by (nonlinear_arith)
                requires
                    a.1 == g * p,
                    b.1 == g * q,
                    a.1 > 0,
                    b.1 > 0,
                    g > 0,
            ;
        }
        let lcm = p * rhs.den;
        proof {
            lemma_div_multiples_vanish(q as int, a.1);
            lemma_div_multiples_vanish(p as int, b.1);
            assert(lcm as int / a.1 == q);
            assert(lcm as int / b.1 == p);
            assert(lcm > 0) by (nonlinear_arith)
                requires
                    lcm == p * b.1,
                    p > 0,
                    b.1 > 0,
            ;
        }
        let left = self.num * div_floor(lcm, self.den);
        let right = rhs.num * div_floor(lcm, rhs.den);
        let num = left + right;
        proof {
            let sm = a.0 * q + b.0 * p;
            let gg = g as int;
            assert(a.0 * b.1 + b.0 * a.1 == gg * sm) by (nonlinear_arith)
                requires
                    a.1 == gg * p,
                    b.1 == gg * q,
                    sm == a.0 * q + b.0 * p,
            ;
            assert(a.1 * b.1 == (gg * p) * (gg * q)) by (nonlinear_arith)
                requires
                    a.1 == gg * p,
                    b.1 == gg * q,
            ;
            assert(lcm == p * (gg * q)) by (nonlinear_arith)
                requires
                    lcm == p * b.1,
                    b.1 == gg * q,
            ;
            assert(sm * ((gg * p) * (gg * q)) == (gg * sm) * (p * (gg * q))) by (nonlinear_arith);
            assert(num * (a.1 * b.1) == (a.0 * b.1 + b.0 * a.1) * lcm);
            assert(a.1 * b.1 != 0) by (nonlinear_arith)
                requires
                    a.1 > 0,
                    b.1 > 0,
            ;
            lemma_canonical_respects_value(num as int, lcm as int, a.0 * b.1 + b.0 * a.1, a.1 * b.1);
        }
        Rational::new(num, lcm)
    }

    /// The exact difference, reduced.
    pub fn minus(self, rhs: Rational) -> (r: Rational)
        requires
            self.wf(),
            rhs.wf(),
            rhs@.0 != i128::MIN,
            sum_fits(self@, (-rhs@.0, rhs@.1)),
        ensures
            r.wf(),
            r@ == difference(self@, rhs@),
    {
        let r = self.plus(rhs.negated());
        proof {
            assert(self@.0 * rhs@.1 + (-rhs@.0) * self@.1 == self@.0 * rhs@.1 - rhs@.0 * self@.1)
                by (nonlinear_arith);
        }
        r
    }

    /// The exact quotient, reduced. Division by zero has no value.
    pub fn divided_by(self, rhs: Rational) -> (r: Rational)
        requires
            self.wf(),
            rhs.wf(),
            rhs@.0 != 0,
            rhs@.0 != i128::MIN,
            product_fits(self@, reciprocal(rhs@)),
        ensures
            r.wf(),
            r@ == quotient(self@, rhs@),
    {
        let inv = rhs.recip();
        let r = self.times(inv);
        proof {
            let a = self@;
            let b = rhs@;
            let c = inv@;
            lemma_canonical(b.1, b.0);
            // c names b.1 / b.0, so a · c names (a.0 b.1) / (a.1 b.0).
            assert((a.0 * c.0) * (a.1 * b.0) == (a.0 * b.1) * (a.1 * c.1)) by (nonlinear_arith)
                requires
                    c.0 * b.0 == b.1 * c.1,
            ;
            assert(a.1 * c.1 != 0 && a.1 * b.0 != 0) by (nonlinear_arith)
                requires
                    a.1 > 0,
                    c.1 > 0,
                    b.0 != 0,
            ;
            lemma_canonical_respects_value(a.0 * c.0, a.1 * c.1, a.0 * b.1, a.1 * b.0);
        }
        r
    }
}

/// `2^64`.
pub open spec fn two64() -> int {
    0x1_0000_0000_0000_0000
}

/// `2^128`.
pub open spec fn two128() -> int {
    two64() * two64()
}

/// Splits a `u128` into its high and low 64-bit halves.
proof fn lemma_halves(x: u128)
    ensures
        x & 0xFFFF_FFFF_FFFF_FFFFu128 == x % 0x1_0000_0000_0000_0000u128,
        x >> 64u128 == x / 0x1_0000_0000_0000_0000u128,
        x == (x >> 64u128) * two64() + (x & 0xFFFF_FFFF_FFFF_FFFFu128),
        x >> 64u128 < two64(),
        x & 0xFFFF_FFFF_FFFF_FFFFu128 < two64(),
{
    assert(x & 0xFFFF_FFFF_FFFF_FFFFu128 == x % 0x1_0000_0000_0000_0000u128) by (bit_vector);
    assert(x >> 64u128 == x / 0x1_0000_0000_0000_0000u128) by (bit_vector);
    lemma_fundamental_div_mod(x as int, two64());
    lemma_div_is_ordered_by_denominator_helper2(x as int);
    lemma_mod_bound(x as int, two64());
}

proof fn lemma_div_is_ordered_by_denominator_helper2(x: int)
    requires
        0 <= x < two128(),
    ensures
        x / two64() < two64(),
{
    lemma_fundamental_div_mod(x, two64());
    lemma_mod_bound(x, two64());
    let q = x / two64();
    assert(q < two64()) by (nonlinear_arith)
        requires
            x == two64() * q + x % two64(),
            0 <= x % two64(),
            x < two128(),
            two128() == two64() * two64(),
    ;
}

/// The full 256-bit product `a · b`, as `(high, low)` 128-bit halves.
fn wide_mul(a: u128, b: u128) -> (r: (u128, u128))
    ensures
        r.0 * two128() + r.1 == a * b,
{
    let m: u128 = 0xFFFF_FFFF_FFFF_FFFF;
    proof {
        lemma_halves(a);
        lemma_halves(b);
    }
    let a0 = a & m;
    let a1 = a >> 64u128;
    let b0 = b & m;
    let b1 = b >> 64u128;
    proof {
        assert(a0 * b0 < two128() && a0 * b1 < two128() && a1 * b0 < two128() && a1 * b1
            < two128()) by (nonlinear_arith)
            requires
                a0 < two64(),
                a1 < two64(),
                b0 < two64(),
                b1 < two64(),
                two128() == two64() * two64(),
        ;
    }
    let p00 = a0 * b0;
    let p01 = a0 * b1;
    let p10 = a1 * b0;
    let p11 = a1 * b1;
    proof {
        lemma_halves(p00);
        lemma_halves(p01);
        lemma_halves(p10);
    }
    let mid = (p00 >> 64u128) + (p01 & m) + (p10 & m);
    proof {
        lemma_halves(mid);
        assert(((mid & m) << 64u128) == (mid & m) * 0x1_0000_0000_0000_0000u128) by (bit_vector)
            requires
                mid & m < 0x1_0000_0000_0000_0000u128,
        ;
    }
    let lo = (p00 & m) + ((mid & m) << 64u128);
    let ghost high: int = p11 + (p01 >> 64u128) + (p10 >> 64u128) + (mid >> 64u128);
    proof {
        assert(a * b == p11 * two128() + (p01 + p10) * two64() + p00) by (nonlinear_arith)
            requires
                a == a1 * two64() + a0,
                b == b1 * two64() + b0,
                p00 == a0 * b0,
                p01 == a0 * b1,
                p10 == a1 * b0,
                p11 == a1 * b1,
                two128() == two64() * two64(),
        ;
        assert(a * b == high * two128() + lo) by (nonlinear_arith)
            requires
                a * b == p11 * two128() + (p01 + p10) * two64() + p00,
                p00 == (p00 >> 64u128) * two64() + (p00 & m),
                p01 == (p01 >> 64u128) * two64() + (p01 & m),
                p10 == (p10 >> 64u128) * two64() + (p10 & m),
                mid == (p00 >> 64u128) + (p01 & m) + (p10 & m),
                mid == (mid >> 64u128) * two64() + (mid & m),
                lo == (p00 & m) + (mid & m) * two64(),
                high == p11 + (p01 >> 64u128) + (p10 >> 64u128) + (mid >> 64u128),
                two128() == two64() * two64(),
        ;
        assert(a * b < two128() * two128()) by (nonlinear_arith)
            requires
                a < two128(),
                b < two128(),
        ;
        assert(high < two128()) by (nonlinear_arith)
            requires
                a * b == high * two128() + lo,
                a * b < two128() * two128(),
                lo >= 0,
        ;
    }
    let hi = p11 + (p01 >> 64u128) + (p10 >> 64u128) + (mid >> 64u128);
    (hi, lo)
}

/// Whether `x · y < z · w`, exactly, for non-negative factors.
fn product_less(x: u128, y: u128, z: u128, w: u128) -> (r: bool)
    ensures
        r == (x * y < z * w),
{
    let (h1, l1) = wide_mul(x, y);
    let (h2, l2) = wide_mul(z, w);
    proof {
        assert((h1 < h2 || (h1 == h2 && l1 < l2)) == (h1 * two128() + l1 < h2 * two128() + l2))
            by (nonlinear_arith)
            requires
                0 <= l1 < two128(),
                0 <= l2 < two128(),
                h1 >= 0,
                h2 >= 0,
        ;
    }
    h1 < h2 || (h1 == h2 && l1 < l2)
}

impl Rational {
    /// Whether `self < other` as numbers.
    ///
    /// Exact for every pair of values, however large: the cross products are
    /// formed at 256 bits, so the comparison has no overflow to refuse.
    pub fn is_less_than(self, other: Rational) -> (r: bool)
        requires
            self.wf(),
            other.wf(),
        ensures
            r == value_lt(self@, other@),
    {
        let ghost a = self@;
        let ghost b = other@;
        let self_negative = self.num < 0;
        let other_negative = other.num < 0;
        let x = magnitude(self.num);
        let z = magnitude(other.num);
        let dy = other.den as u128;
        let dx = self.den as u128;
        proof {
            lemma_abs_mul(a.0, b.1);
            lemma_abs_mul(b.0, a.1);
            assert(a.0 * b.1 < 0 <==> a.0 < 0) by (nonlinear_arith)
                requires
                    b.1 > 0,
            ;
            assert(b.0 * a.1 < 0 <==> b.0 < 0) by (nonlinear_arith)
                requires
                    a.1 > 0,
            ;
        }
        if self_negative != other_negative {
            self_negative
        } else if self_negative {
            // Both negative: the larger magnitude is the smaller number.
            product_less(z, dx, x, dy)
        } else {
            product_less(x, dy, z, dx)
        }
    }
}

impl Rational {
    /// Zero.
    pub fn zero() -> (r: Rational)
        ensures
            r.wf(),
            r@ == (0int, 1int),
    {
        Rational::from_int(0)
    }

    /// One.
    pub fn one() -> (r: Rational)
        ensures
            r.wf(),
            r@ == (1int, 1int),
    {
        Rational::from_int(1)
    }

    /// The value a model names, when it is well formed.
    proof fn lemma_result(r: Rational, p: (int, int))
        requires
            r@ == p,
        ensures
            r == Rational::from_view(p),
    {
    }
}

impl core::ops::Add for Rational {
    type Output = Rational;

    fn add(self, rhs: Rational) -> (r: Rational) {
        let r = self.plus(rhs);
        proof {
            Rational::lemma_result(r, sum(self@, rhs@));
        }
        r
    }
}

impl AddSpecImpl for Rational {
    open spec fn obeys_add_spec() -> bool {
        true
    }

    open spec fn add_req(self, rhs: Rational) -> bool {
        self.wf() && rhs.wf() && sum_fits(self@, rhs@)
    }

    open spec fn add_spec(self, rhs: Rational) -> Rational {
        Rational::from_view(sum(self@, rhs@))
    }
}

impl core::ops::Sub for Rational {
    type Output = Rational;

    fn sub(self, rhs: Rational) -> (r: Rational) {
        let r = self.minus(rhs);
        proof {
            Rational::lemma_result(r, difference(self@, rhs@));
        }
        r
    }
}

impl SubSpecImpl for Rational {
    open spec fn obeys_sub_spec() -> bool {
        true
    }

    open spec fn sub_req(self, rhs: Rational) -> bool {
        self.wf() && rhs.wf() && rhs@.0 != i128::MIN && sum_fits(self@, (-rhs@.0, rhs@.1))
    }

    open spec fn sub_spec(self, rhs: Rational) -> Rational {
        Rational::from_view(difference(self@, rhs@))
    }
}

impl core::ops::Mul for Rational {
    type Output = Rational;

    fn mul(self, rhs: Rational) -> (r: Rational) {
        let r = self.times(rhs);
        proof {
            Rational::lemma_result(r, product(self@, rhs@));
        }
        r
    }
}

impl MulSpecImpl for Rational {
    open spec fn obeys_mul_spec() -> bool {
        true
    }

    open spec fn mul_req(self, rhs: Rational) -> bool {
        self.wf() && rhs.wf() && product_fits(self@, rhs@)
    }

    open spec fn mul_spec(self, rhs: Rational) -> Rational {
        Rational::from_view(product(self@, rhs@))
    }
}

impl core::ops::Div for Rational {
    type Output = Rational;

    fn div(self, rhs: Rational) -> (r: Rational) {
        let r = self.divided_by(rhs);
        proof {
            Rational::lemma_result(r, quotient(self@, rhs@));
        }
        r
    }
}

impl DivSpecImpl for Rational {
    open spec fn obeys_div_spec() -> bool {
        true
    }

    open spec fn div_req(self, rhs: Rational) -> bool {
        self.wf() && rhs.wf() && rhs@.0 != 0 && rhs@.0 != i128::MIN && product_fits(
            self@,
            reciprocal(rhs@),
        )
    }

    open spec fn div_spec(self, rhs: Rational) -> Rational {
        Rational::from_view(quotient(self@, rhs@))
    }
}

impl core::ops::Neg for Rational {
    type Output = Rational;

    fn neg(self) -> (r: Rational) {
        let r = self.negated();
        proof {
            Rational::lemma_result(r, (-self@.0, self@.1));
        }
        r
    }
}

impl NegSpecImpl for Rational {
    open spec fn obeys_neg_spec() -> bool {
        true
    }

    open spec fn neg_req(self) -> bool {
        self.wf() && self@.0 != i128::MIN
    }

    open spec fn neg_spec(self) -> Rational {
        Rational::from_view((-self@.0, self@.1))
    }
}

impl From<i128> for Rational {
    fn from(n: i128) -> (r: Rational) {
        Rational::from_int(n)
    }
}

impl FromSpecImpl<i128> for Rational {
    open spec fn obeys_from_spec() -> bool {
        true
    }

    open spec fn from_spec(n: i128) -> Rational {
        Rational::from_view((n as int, 1int))
    }
}

impl From<u32> for Rational {
    fn from(n: u32) -> (r: Rational) {
        Rational::from_int(n as i128)
    }
}

impl FromSpecImpl<u32> for Rational {
    open spec fn obeys_from_spec() -> bool {
        true
    }

    open spec fn from_spec(n: u32) -> Rational {
        Rational::from_view((n as int, 1int))
    }
}

impl From<u64> for Rational {
    fn from(n: u64) -> (r: Rational) {
        Rational::from_int(n as i128)
    }
}

impl FromSpecImpl<u64> for Rational {
    open spec fn obeys_from_spec() -> bool {
        true
    }

    open spec fn from_spec(n: u64) -> Rational {
        Rational::from_view((n as int, 1int))
    }
}

impl Rational {
    /// Every value is held in reduced spelling.
    #[verifier::type_invariant]
    pub closed spec fn inv(self) -> bool {
        self.wf()
    }

    /// What the type invariant says: every value is well formed.
    pub proof fn lemma_inv(r: Rational)
        requires
            r.inv(),
        ensures
            r.wf(),
    {
    }
}

impl PartialOrd for Rational {
    fn partial_cmp(&self, other: &Rational) -> (r: Option<core::cmp::Ordering>) {
        proof {
            use_type_invariant(self);
            use_type_invariant(other);
        }
        if *self == *other {
            Some(core::cmp::Ordering::Equal)
        } else if self.is_less_than(*other) {
            Some(core::cmp::Ordering::Less)
        } else {
            Some(core::cmp::Ordering::Greater)
        }
    }
}

impl PartialOrdSpecImpl for Rational {
    open spec fn obeys_partial_cmp_spec() -> bool {
        true
    }

    open spec fn partial_cmp_spec(&self, other: &Rational) -> Option<core::cmp::Ordering> {
        if *self == *other {
            Some(core::cmp::Ordering::Equal)
        } else if value_lt(self@, other@) {
            Some(core::cmp::Ordering::Less)
        } else {
            Some(core::cmp::Ordering::Greater)
        }
    }
}

/// `n` on its own when `d == 1`, otherwise `n/d`.
pub open spec fn fraction_text(p: (int, int)) -> Seq<char> {
    if p.1 == 1 {
        signed_decimal(p.0)
    } else {
        signed_decimal(p.0) + seq!['/'] + signed_decimal(p.1)
    }
}

impl Rational {
    /// The value as text: `3/4`, `-1/2`, or just `2` for an integer.
    pub fn to_string(&self) -> (s: String)
        ensures
            s@ == fraction_text(self@),
    {
        let mut s = String::new();
        push_signed(&mut s, self.num);
        if self.den != 1 {
            push_char(&mut s, '/');
            push_signed(&mut s, self.den);
        }
        proof {
            assert(s@ =~= fraction_text(self@));
        }
        s
    }
}

/// Two well-formed rationals are equal exactly when they name the same number.
pub proof fn law_equal_iff_same_value(a: Rational, b: Rational)
    requires
        a.wf(),
        b.wf(),
    ensures
        a == b <==> same_value(a@, b@),
{
    if same_value(a@, b@) {
        lemma_canonical_unique(a@, b@);
        Rational::lemma_view_injective(a, b);
    }
}

/// The reduced spelling of `n / d` names `n / d`: `c.0 · d == n · c.1`.
proof fn lemma_names(n: int, d: int)
    requires
        d != 0,
    ensures
        canonical(n, d).0 * d == n * canonical(n, d).1,
        canonical(n, d).1 > 0,
{
    lemma_canonical(n, d);
}

/// A reduced left operand of a sum can be replaced by any spelling of it.
proof fn lemma_sum_left(c: (int, int), n: int, d: int, z: (int, int))
    requires
        c.0 * d == n * c.1,
        c.1 > 0,
        d > 0,
        z.1 > 0,
    ensures
        sum(c, z) == canonical(n * z.1 + z.0 * d, d * z.1),
{
    let (c0, c1) = c;
    let (e, f) = z;
    assert(c0 * f * (d * f) == n * f * (c1 * f)) by (nonlinear_arith)
        requires
            c0 * d == n * c1,
    ;
    assert(e * c1 * (d * f) == e * d * (c1 * f)) by (nonlinear_arith);
    assert((c0 * f + e * c1) * (d * f) == c0 * f * (d * f) + e * c1 * (d * f)) by (nonlinear_arith);
    assert((n * f + e * d) * (c1 * f) == n * f * (c1 * f) + e * d * (c1 * f)) by (nonlinear_arith);
    assert(c1 * f > 0 && d * f > 0) by (nonlinear_arith)
        requires
            c1 > 0,
            d > 0,
            f > 0,
    ;
    lemma_canonical_respects_value(c0 * f + e * c1, c1 * f, n * f + e * d, d * f);
}

/// A reduced right operand of a sum can be replaced by any spelling of it.
proof fn lemma_sum_right(x: (int, int), c: (int, int), n: int, d: int)
    requires
        c.0 * d == n * c.1,
        c.1 > 0,
        d > 0,
        x.1 > 0,
    ensures
        sum(x, c) == canonical(x.0 * d + n * x.1, x.1 * d),
{
    let (a, b) = x;
    let (c0, c1) = c;
    assert(c0 * b * (b * d) == n * b * (b * c1)) by (nonlinear_arith)
        requires
            c0 * d == n * c1,
    ;
    assert(a * c1 * (b * d) == a * d * (b * c1)) by (nonlinear_arith);
    assert((a * c1 + c0 * b) * (b * d) == a * c1 * (b * d) + c0 * b * (b * d)) by (nonlinear_arith);
    assert((a * d + n * b) * (b * c1) == a * d * (b * c1) + n * b * (b * c1)) by (nonlinear_arith);
    assert(b * c1 > 0 && b * d > 0) by (nonlinear_arith)
        requires
            c1 > 0,
            d > 0,
            b > 0,
    ;
    lemma_canonical_respects_value(a * c1 + c0 * b, b * c1, a * d + n * b, b * d);
}

/// A reduced operand of a product can be replaced by any spelling of it.
proof fn lemma_product_left(c: (int, int), n: int, d: int, z: (int, int))
    requires
        c.0 * d == n * c.1,
        c.1 > 0,
        d > 0,
        z.1 > 0,
    ensures
        product(c, z) == canonical(n * z.0, d * z.1),
{
    let (c0, c1) = c;
    assert((c0 * z.0) * (d * z.1) == (n * z.0) * (c1 * z.1)) by (nonlinear_arith)
        requires
            c0 * d == n * c1,
    ;
    assert(c1 * z.1 > 0 && d * z.1 > 0) by (nonlinear_arith)
        requires
            c1 > 0,
            d > 0,
            z.1 > 0,
    ;
    lemma_canonical_respects_value(c0 * z.0, c1 * z.1, n * z.0, d * z.1);
}

proof fn lemma_product_commutes(x: (int, int), y: (int, int))
    ensures
        product(x, y) == product(y, x),
{
    assert(x.0 * y.0 == y.0 * x.0 && x.1 * y.1 == y.1 * x.1) by (nonlinear_arith);
}

proof fn lemma_ring_sum3(a: int, b: int, c: int, d: int, e: int, f: int)
    ensures
        (a * d + c * b) * f + e * (b * d) == a * (d * f) + (c * f + e * d) * b,
{
    lemma_mul_is_distributive_add_other_way(f, a * d, c * b);
    lemma_mul_is_distributive_add_other_way(b, c * f, e * d);
    lemma_mul_is_associative(a, d, f);
    lemma_mul_is_associative(c, b, f);
    lemma_mul_is_associative(c, f, b);
    lemma_mul_is_commutative(b, f);
    lemma_mul_is_associative(e, b, d);
    lemma_mul_is_associative(e, d, b);
    lemma_mul_is_commutative(b, d);
}

proof fn lemma_ring_distrib(a: int, b: int, c: int, d: int, e: int, f: int)
    ensures
        ((c * f + e * d) * a) * ((b * d) * (b * f)) == ((a * c) * (b * f) + (a * e) * (b * d)) * ((
        d * f) * b),
{
    let l = (c * f + e * d) * a;
    let r = (a * c) * (b * f) + (a * e) * (b * d);
    // r == l * b
    assert((a * c) * (b * f) == ((c * f) * a) * b) by (nonlinear_arith);
    assert((a * e) * (b * d) == ((e * d) * a) * b) by (nonlinear_arith);
    lemma_mul_is_distributive_add_other_way(a, c * f, e * d);
    lemma_mul_is_distributive_add_other_way(b, (c * f) * a, (e * d) * a);
    assert(r == l * b);
    assert((b * d) * (b * f) == ((d * f) * b) * b) by (nonlinear_arith);
    assert(l * (((d * f) * b) * b) == (l * b) * ((d * f) * b)) by (nonlinear_arith);
}

/// Addition is associative, exactly.
pub proof fn law_sum_associative(x: (int, int), y: (int, int), z: (int, int))
    requires
        is_canonical(x),
        is_canonical(y),
        is_canonical(z),
    ensures
        sum(sum(x, y), z) == sum(x, sum(y, z)),
{
    let (a, b) = x;
    let (c, d) = y;
    let (e, f) = z;
    assert(b * d > 0 && d * f > 0) by (nonlinear_arith)
        requires
            b > 0,
            d > 0,
            f > 0,
    ;
    lemma_names(a * d + c * b, b * d);
    lemma_names(c * f + e * d, d * f);
    lemma_sum_left(sum(x, y), a * d + c * b, b * d, z);
    lemma_sum_right(x, sum(y, z), c * f + e * d, d * f);
    lemma_ring_sum3(a, b, c, d, e, f);
    assert((b * d) * f == b * (d * f)) by (nonlinear_arith);
}

/// Addition commutes.
pub proof fn law_sum_commutes(x: (int, int), y: (int, int))
    ensures
        sum(x, y) == sum(y, x),
{
    assert(x.0 * y.1 + y.0 * x.1 == y.0 * x.1 + x.0 * y.1);
    assert(x.1 * y.1 == y.1 * x.1) by (nonlinear_arith);
}

/// Adding zero changes nothing.
pub proof fn law_zero_is_the_identity(x: (int, int))
    requires
        is_canonical(x),
    ensures
        sum(x, (0, 1)) == x,
{
    assert(x.0 * 1 + 0 * x.1 == x.0 && x.1 * 1 == x.1);
    lemma_canonical_of_canonical(x);
}

/// A value less itself is zero.
pub proof fn law_a_value_less_itself_is_zero(x: (int, int))
    requires
        is_canonical(x),
    ensures
        difference(x, x) == (0int, 1int),
{
    assert(x.1 * x.1 != 0) by (nonlinear_arith)
        requires
            x.1 > 0,
    ;
    assert(x.0 * x.1 - x.0 * x.1 == 0);
    lemma_canonical(x.0 * x.1 - x.0 * x.1, x.1 * x.1);
}

/// A nonzero value times its reciprocal is one, and the reciprocal of the
/// reciprocal is the value again.
pub proof fn law_reciprocal_undoes(x: (int, int))
    requires
        is_canonical(x),
        x.0 != 0,
    ensures
        product(x, reciprocal(x)) == (1int, 1int),
        reciprocal(reciprocal(x)) == x,
{
    lemma_canonical_of_canonical(x);
    lemma_product_of_spellings(x.0, x.1, x.1, x.0);
    assert(x.0 * x.1 != 0) by (nonlinear_arith)
        requires
            x.0 != 0,
            x.1 > 0,
    ;
    lemma_canonical_respects_value(x.0 * x.1, x.1 * x.0, 1, 1);
    lemma_gcd_one(1);
    lemma_canonical_of_canonical((1int, 1int));
    lemma_canonical(x.1, x.0);
    let r = canonical(x.1, x.0);
    assert(r.0 * x.0 == x.1 * r.1);
    assert(r.0 != 0 && r.1 * x.1 == x.0 * r.0) by (nonlinear_arith)
        requires
            r.0 * x.0 == x.1 * r.1,
            x.1 > 0,
            r.1 > 0,
    ;
    lemma_canonical_respects_value(r.1, r.0, x.0, x.1);
}

/// Multiplication is associative, exactly.
pub proof fn law_product_associative(x: (int, int), y: (int, int), z: (int, int))
    requires
        is_canonical(x),
        is_canonical(y),
        is_canonical(z),
    ensures
        product(product(x, y), z) == product(x, product(y, z)),
{
    assert(x.1 * y.1 > 0 && y.1 * z.1 > 0) by (nonlinear_arith)
        requires
            x.1 > 0,
            y.1 > 0,
            z.1 > 0,
    ;
    lemma_names(x.0 * y.0, x.1 * y.1);
    lemma_names(y.0 * z.0, y.1 * z.1);
    lemma_product_left(product(x, y), x.0 * y.0, x.1 * y.1, z);
    lemma_product_commutes(x, product(y, z));
    lemma_product_left(product(y, z), y.0 * z.0, y.1 * z.1, x);
    assert((x.0 * y.0) * z.0 == (y.0 * z.0) * x.0) by (nonlinear_arith);
    assert((x.1 * y.1) * z.1 == (y.1 * z.1) * x.1) by (nonlinear_arith);
}

/// Multiplication distributes over addition, exactly.
pub proof fn law_distributive(x: (int, int), y: (int, int), z: (int, int))
    requires
        is_canonical(x),
        is_canonical(y),
        is_canonical(z),
    ensures
        product(x, sum(y, z)) == sum(product(x, y), product(x, z)),
{
    let (a, b) = x;
    let (c, d) = y;
    let (e, f) = z;
    assert(b * d > 0 && d * f > 0 && b * f > 0) by (nonlinear_arith)
        requires
            b > 0,
            d > 0,
            f > 0,
    ;
    lemma_names(c * f + e * d, d * f);
    lemma_names(a * c, b * d);
    lemma_names(a * e, b * f);
    // Left: x · (y + z) names a (c f + e d) / (b d f).
    lemma_product_commutes(x, sum(y, z));
    lemma_product_left(sum(y, z), c * f + e * d, d * f, x);
    // Right: x y + x z names (a c b f + a e b d) / (b d b f).
    let xy = product(x, y);
    let xz = product(x, z);
    lemma_sum_left(xy, a * c, b * d, xz);
    lemma_sum_right((a * c, b * d), xz, a * e, b * f);
    assert(((a * c) * xz.1 + xz.0 * (b * d)) == (a * c) * xz.1 + xz.0 * (b * d));
    // The two spellings name the same number.
    let n1 = (c * f + e * d) * a;
    let d1 = (d * f) * b;
    let n2 = (a * c) * (b * f) + (a * e) * (b * d);
    let d2 = (b * d) * (b * f);
    lemma_ring_distrib(a, b, c, d, e, f);
    assert(d1 > 0 && d2 > 0) by (nonlinear_arith)
        requires
            d1 == (d * f) * b,
            d2 == (b * d) * (b * f),
            b > 0,
            d * f > 0,
            b * d > 0,
            b * f > 0,
    ;
    lemma_canonical_respects_value(n1, d1, n2, d2);
    // And the right side's nested spelling is that second one.
    lemma_sum_left(xy, a * c, b * d, xz);
}

/// Dividing by a nonzero number and multiplying back gives the start.
pub proof fn law_quotient_then_product(x: (int, int), y: (int, int))
    requires
        is_canonical(x),
        is_canonical(y),
        y.0 != 0,
    ensures
        product(quotient(x, y), y) == x,
{
    assert(x.1 * y.0 != 0) by (nonlinear_arith)
        requires
            x.1 > 0,
            y.0 != 0,
    ;
    let q = quotient(x, y);
    lemma_names(x.0 * y.1, x.1 * y.0);
    assert((q.0 * y.0) * x.1 == x.0 * (q.1 * y.1)) by (nonlinear_arith)
        requires
            q.0 * (x.1 * y.0) == (x.0 * y.1) * q.1,
            y.0 != 0,
    ;
    assert(q.1 * y.1 != 0) by (nonlinear_arith)
        requires
            q.1 > 0,
            y.1 > 0,
    ;
    lemma_canonical_respects_value(q.0 * y.0, q.1 * y.1, x.0, x.1);
    lemma_canonical_of_canonical(x);
}

/// Rounding half up lands within half a unit: `r - 1/2 <= n/d < r + 1/2`.
pub proof fn law_round_half_up_is_nearest(p: (int, int))
    requires
        p.1 > 0,
    ensures
        (2 * round_half_up_of(p) - 1) * p.1 <= 2 * p.0,
        2 * p.0 < (2 * round_half_up_of(p) + 1) * p.1,
{
    let r = round_half_up_of(p);
    lemma_fundamental_div_mod(2 * p.0 + p.1, 2 * p.1);
    lemma_mod_bound(2 * p.0 + p.1, 2 * p.1);
    assert((2 * r - 1) * p.1 <= 2 * p.0 && 2 * p.0 < (2 * r + 1) * p.1) by (nonlinear_arith)
        requires
            2 * p.0 + p.1 == (2 * p.1) * r + (2 * p.0 + p.1) % (2 * p.1),
            0 <= (2 * p.0 + p.1) % (2 * p.1) < 2 * p.1,
    ;
}

/// `floor(x) <= x < floor(x) + 1` and `ceil(x) - 1 < x <= ceil(x)`.
pub proof fn law_floor_and_ceil_bracket(p: (int, int))
    requires
        p.1 > 0,
    ensures
        floor_of(p) * p.1 <= p.0 < (floor_of(p) + 1) * p.1,
        (ceil_of(p) - 1) * p.1 < p.0 <= ceil_of(p) * p.1,
{
    lemma_fundamental_div_mod(p.0, p.1);
    lemma_mod_bound(p.0, p.1);
    lemma_fundamental_div_mod(-p.0, p.1);
    lemma_mod_bound(-p.0, p.1);
    let f = floor_of(p);
    let g = (-p.0) / p.1;
    assert(f * p.1 <= p.0 < (f + 1) * p.1) by (nonlinear_arith)
        requires
            p.0 == p.1 * f + p.0 % p.1,
            0 <= p.0 % p.1 < p.1,
    ;
    assert((-g - 1) * p.1 < p.0 <= (-g) * p.1) by (nonlinear_arith)
        requires
            -p.0 == p.1 * g + (-p.0) % p.1,
            0 <= (-p.0) % p.1 < p.1,
    ;
}

/// The product of two reduced spellings is the reduced spelling of the
/// product of what they spell.
pub proof fn lemma_product_of_spellings(n1: int, d1: int, n2: int, d2: int)
    requires
        d1 != 0,
        d2 != 0,
    ensures
        product(canonical(n1, d1), canonical(n2, d2)) == canonical(n1 * n2, d1 * d2),
{
    lemma_names(n1, d1);
    lemma_names(n2, d2);
    let c1 = canonical(n1, d1);
    let c2 = canonical(n2, d2);
    assert((c1.0 * c2.0) * (d1 * d2) == (n1 * n2) * (c1.1 * c2.1)) by (nonlinear_arith)
        requires
            c1.0 * d1 == n1 * c1.1,
            c2.0 * d2 == n2 * c2.1,
    ;
    assert(c1.1 * c2.1 != 0 && d1 * d2 != 0) by (nonlinear_arith)
        requires
            c1.1 > 0,
            c2.1 > 0,
            d1 != 0,
            d2 != 0,
    ;
    lemma_canonical_respects_value(c1.0 * c2.0, c1.1 * c2.1, n1 * n2, d1 * d2);
}

/// The quotient of two reduced spellings is the reduced spelling of the
/// quotient of what they spell.
pub proof fn lemma_quotient_of_spellings(n1: int, d1: int, n2: int, d2: int)
    requires
        d1 != 0,
        d2 != 0,
        n2 != 0,
    ensures
        quotient(canonical(n1, d1), canonical(n2, d2)) == canonical(n1 * d2, d1 * n2),
{
    lemma_names(n1, d1);
    lemma_names(n2, d2);
    let c1 = canonical(n1, d1);
    let c2 = canonical(n2, d2);
    assert(c2.0 != 0) by (nonlinear_arith)
        requires
            c2.0 * d2 == n2 * c2.1,
            c2.1 > 0,
            n2 != 0,
    ;
    assert((c1.0 * c2.1) * (d1 * n2) == (n1 * d2) * (c1.1 * c2.0)) by (nonlinear_arith)
        requires
            c1.0 * d1 == n1 * c1.1,
            c2.0 * d2 == n2 * c2.1,
    ;
    assert(c1.1 * c2.0 != 0 && d1 * n2 != 0) by (nonlinear_arith)
        requires
            c1.1 > 0,
            c2.0 != 0,
            d1 != 0,
            n2 != 0,
    ;
    lemma_canonical_respects_value(c1.0 * c2.1, c1.1 * c2.0, n1 * d2, d1 * n2);
}

/// Rounding half up depends only on the number a fraction names.
pub proof fn lemma_round_respects_value(n1: int, d1: int, n2: int, d2: int)
    requires
        d1 > 0,
        d2 > 0,
        n1 * d2 == n2 * d1,
    ensures
        round_half_up_of((n1, d1)) == round_half_up_of((n2, d2)),
{
    let r1 = round_half_up_of((n1, d1));
    let r2 = round_half_up_of((n2, d2));
    law_round_half_up_is_nearest((n1, d1));
    law_round_half_up_is_nearest((n2, d2));
    // Both lie in [x - 1/2, x + 1/2) for the same x, so they are one integer.
    assert((2 * r1 - 1) * d1 * d2 <= 2 * n1 * d2) by (nonlinear_arith)
        requires
            (2 * r1 - 1) * d1 <= 2 * n1,
            d2 > 0,
    ;
    assert(2 * n1 * d2 < (2 * r1 + 1) * d1 * d2) by (nonlinear_arith)
        requires
            2 * n1 < (2 * r1 + 1) * d1,
            d2 > 0,
    ;
    assert((2 * r2 - 1) * d2 * d1 <= 2 * n2 * d1) by (nonlinear_arith)
        requires
            (2 * r2 - 1) * d2 <= 2 * n2,
            d1 > 0,
    ;
    assert(2 * n2 * d1 < (2 * r2 + 1) * d2 * d1) by (nonlinear_arith)
        requires
            2 * n2 < (2 * r2 + 1) * d2,
            d1 > 0,
    ;
    assert(r1 == r2) by (nonlinear_arith)
        requires
            (2 * r1 - 1) * d1 * d2 <= 2 * n1 * d2,
            2 * n1 * d2 < (2 * r1 + 1) * d1 * d2,
            (2 * r2 - 1) * d2 * d1 <= 2 * n2 * d1,
            2 * n2 * d1 < (2 * r2 + 1) * d2 * d1,
            n1 * d2 == n2 * d1,
            d1 > 0,
            d2 > 0,
    ;
}

/// `gcd(a, 1) == 1`.
pub proof fn lemma_gcd_one(a: nat)
    ensures
        spec_gcd(a, 1) == 1,
{
    lemma_small_mod(0, 1);
    assert(a % 1 == 0) by {
        lemma_mod_multiples_basic(a as int, 1);
        assert(a * 1 == a);
    }
    assert(spec_gcd(a, 1) == spec_gcd(1, a % 1));
    assert(spec_gcd(1, 0) == 1);
}

/// `1/p` is already reduced.
pub proof fn lemma_unit_fraction(p: int)
    requires
        p > 0,
    ensures
        is_canonical((1, p)),
        canonical(1, p) == (1int, p),
{
    if p > 1 {
        lemma_small_mod(1, p as nat);
        assert(spec_gcd(1, p as nat) == spec_gcd(p as nat, 1));
        lemma_gcd_one(p as nat);
    } else {
        lemma_gcd_one(1);
    }
    lemma_canonical_of_canonical((1, p));
}

/// A product of two positive fractions is positive.
pub proof fn lemma_product_positive(a: (int, int), b: (int, int))
    requires
        a.0 > 0,
        a.1 > 0,
        b.0 > 0,
        b.1 > 0,
    ensures
        product(a, b).0 > 0,
        product(a, b).1 > 0,
{
    assert(a.0 * b.0 > 0 && a.1 * b.1 > 0) by (nonlinear_arith)
        requires
            a.0 > 0,
            a.1 > 0,
            b.0 > 0,
            b.1 > 0,
    ;
    lemma_positive_spelling(a.0 * b.0, a.1 * b.1);
}

/// A quotient of two positive fractions is positive.
pub proof fn lemma_quotient_positive(a: (int, int), b: (int, int))
    requires
        a.0 > 0,
        a.1 > 0,
        b.0 > 0,
        b.1 > 0,
    ensures
        quotient(a, b).0 > 0,
        quotient(a, b).1 > 0,
{
    assert(a.0 * b.1 > 0 && a.1 * b.0 > 0) by (nonlinear_arith)
        requires
            a.0 > 0,
            a.1 > 0,
            b.0 > 0,
            b.1 > 0,
    ;
    lemma_positive_spelling(a.0 * b.1, a.1 * b.0);
}

/// The reduced spelling of a positive fraction is positive, and of a
/// non-negative one non-negative.
pub proof fn lemma_positive_spelling(n: int, d: int)
    requires
        d > 0,
    ensures
        n > 0 ==> canonical(n, d).0 > 0,
        n >= 0 ==> canonical(n, d).0 >= 0,
        canonical(n, d).1 > 0,
{
    lemma_names(n, d);
    let c = canonical(n, d);
    assert(n > 0 ==> c.0 > 0) by (nonlinear_arith)
        requires
            c.0 * d == n * c.1,
            c.1 > 0,
            d > 0,
    ;
    assert(n >= 0 ==> c.0 >= 0) by (nonlinear_arith)
        requires
            c.0 * d == n * c.1,
            c.1 > 0,
            d > 0,
    ;
}

/// A non-negative whole number divided by a positive one is no larger.
proof fn lemma_div_shrinks(x: int, g: int)
    requires
        x >= 0,
        g >= 1,
    ensures
        0 <= x / g <= x,
{
    lemma_div_is_ordered_by_denominator(x, 1, g);
    lemma_div_pos_is_pos(x, g);
    lemma_div_basics(x);
}

/// The product of two non-negative fractions whose parts stay below `m`
/// needs nothing outside `i128`, for `m · m` within it.
pub proof fn lemma_product_fits_small(a: (int, int), b: (int, int), m: int)
    requires
        0 <= a.0 <= m,
        0 < a.1 <= m,
        0 <= b.0 <= m,
        0 < b.1 <= m,
        m * m <= i128::MAX,
    ensures
        product_fits(a, b),
{
    let g1 = spec_gcd(abs(a.0), b.1 as nat) as int;
    let g2 = spec_gcd(abs(b.0), a.1 as nat) as int;
    lemma_gcd_pos(abs(a.0), b.1 as nat);
    lemma_gcd_pos(abs(b.0), a.1 as nat);
    lemma_div_shrinks(a.0, g1);
    lemma_div_shrinks(b.0, g2);
    lemma_div_shrinks(a.1, g2);
    lemma_div_shrinks(b.1, g1);
    assert(0 <= (a.0 / g1) * (b.0 / g2) <= m * m) by (nonlinear_arith)
        requires
            0 <= a.0 / g1 <= m,
            0 <= b.0 / g2 <= m,
    ;
    assert(0 <= (a.1 / g2) * (b.1 / g1) <= m * m) by (nonlinear_arith)
        requires
            0 <= a.1 / g2 <= m,
            0 <= b.1 / g1 <= m,
    ;
}

} // verus!
