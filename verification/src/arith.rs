//! Divisibility and the greatest common divisor, as mathematics.
//!
//! Everything exact in this crate rests on one fact: a fraction has exactly one
//! reduced spelling. The lemmas here are what prove it.

use vstd::arithmetic::div_mod::*;
use vstd::arithmetic::mul::*;
use vstd::prelude::*;

verus! {

/// Euclid's greatest common divisor, with `gcd(a, 0) == a`.
pub open spec fn spec_gcd(a: nat, b: nat) -> nat
    decreases b,
{
    if b == 0 {
        a
    } else {
        spec_gcd(b, a % b)
    }
}

/// `c` divides `a`, for a positive `c`.
pub open spec fn divides(c: int, a: int) -> bool {
    c > 0 && a % c == 0
}

pub open spec fn abs(x: int) -> nat {
    if x < 0 {
        (-x) as nat
    } else {
        x as nat
    }
}

/// `a == c * k` makes `c` a divisor of `a`.
pub proof fn lemma_divides_zero(c: int)
    requires
        c > 0,
    ensures
        divides(c, 0),
{
    lemma_mod_self_0(c);
    assert(0int % c == 0) by {
        lemma_small_mod(0, c as nat);
    }
}

pub proof fn lemma_divides_intro(a: int, c: int, k: int)
    requires
        c > 0,
        a == c * k,
    ensures
        divides(c, a),
{
    lemma_mod_multiples_basic(k, c);
    lemma_mul_is_commutative(c, k);
}

/// A divisor leaves an exact quotient.
pub proof fn lemma_divides_elim(a: int, c: int)
    requires
        divides(c, a),
    ensures
        a == c * (a / c),
{
    lemma_fundamental_div_mod(a, c);
}

/// `c | a` and `c | b` give `c | a * k + b * j`.
pub proof fn lemma_divides_combination(c: int, a: int, b: int, k: int, j: int)
    requires
        divides(c, a),
        divides(c, b),
    ensures
        divides(c, a * k + b * j),
{
    lemma_divides_elim(a, c);
    lemma_divides_elim(b, c);
    let p = a / c;
    let q = b / c;
    assert(a * k + b * j == c * (p * k + q * j)) by (nonlinear_arith)
        requires
            a == c * p,
            b == c * q,
    ;
    lemma_divides_intro(a * k + b * j, c, p * k + q * j);
}

/// Divisibility is transitive.
pub proof fn lemma_divides_trans(a: int, b: int, c: int)
    requires
        divides(a, b),
        divides(b, c),
    ensures
        divides(a, c),
{
    lemma_divides_elim(b, a);
    lemma_divides_elim(c, b);
    let p = b / a;
    let q = c / b;
    assert(c == a * (p * q)) by (nonlinear_arith)
        requires
            b == a * p,
            c == b * q,
    ;
    lemma_divides_intro(c, a, p * q);
}

/// A positive multiple of `c` is at least `c`.
pub proof fn lemma_divides_le(c: int, a: int)
    requires
        divides(c, a),
        a > 0,
    ensures
        c <= a,
{
    lemma_divides_elim(a, c);
    let k = a / c;
    assert(c <= a) by (nonlinear_arith)
        requires
            a == c * k,
            c > 0,
            a > 0,
    ;
}

/// Two positive numbers that divide each other are equal.
pub proof fn lemma_divides_antisym(a: int, b: int)
    requires
        divides(a, b),
        divides(b, a),
    ensures
        a == b,
{
    lemma_divides_le(a, b);
    lemma_divides_le(b, a);
}

/// Euclid's gcd is positive unless both arguments are zero.
pub proof fn lemma_gcd_pos(a: nat, b: nat)
    requires
        a > 0 || b > 0,
    ensures
        spec_gcd(a, b) > 0,
    decreases b,
{
    if b > 0 {
        lemma_gcd_pos(b, a % b);
    }
}

/// The gcd divides both of its arguments.
pub proof fn lemma_gcd_divides(a: nat, b: nat)
    requires
        a > 0 || b > 0,
    ensures
        divides(spec_gcd(a, b) as int, a as int),
        divides(spec_gcd(a, b) as int, b as int),
    decreases b,
{
    lemma_gcd_pos(a, b);
    let g = spec_gcd(a, b) as int;
    if b == 0 {
        lemma_divides_zero(g);
    } else {
        lemma_gcd_divides(b, a % b);
        // a == b * (a / b) + a % b
        lemma_fundamental_div_mod(a as int, b as int);
        lemma_divides_combination(g, b as int, (a % b) as int, a as int / b as int, 1);
    }
}

/// Every common divisor divides the gcd.
pub proof fn lemma_gcd_greatest(a: nat, b: nat, c: int)
    requires
        divides(c, a as int),
        divides(c, b as int),
    ensures
        divides(c, spec_gcd(a, b) as int),
    decreases b,
{
    if b > 0 {
        lemma_fundamental_div_mod(a as int, b as int);
        // a % b == a - b * (a / b)
        lemma_divides_combination(c, a as int, b as int, 1, -(a as int / b as int));
        let q = a as int / b as int;
        assert(a as int * 1 + b as int * (-q) == (a % b) as int) by (nonlinear_arith)
            requires
                a as int == b as int * q + (a % b) as int,
        ;
        lemma_gcd_greatest(b, a % b, c);
    }
}

/// `(k a) mod (k b) == k (a mod b)`.
pub proof fn lemma_mod_scaled(k: nat, a: nat, b: nat)
    requires
        k > 0,
        b > 0,
    ensures
        ((k * a) as int) % ((k * b) as int) == k * (a % b),
        (k * a) % (k * b) == k * (a % b),
{
    lemma_fundamental_div_mod(a as int, b as int);
    let q = a as int / b as int;
    let r = a as int % b as int;
    assert(0 <= r < b);
    assert((k * a) as int == q * (k * b) + k * r) by (nonlinear_arith)
        requires
            a == b * q + r,
    ;
    assert(0 <= k * r < k * b) by (nonlinear_arith)
        requires
            0 <= r < b,
            k > 0,
    ;
    lemma_fundamental_div_mod_converse((k * a) as int, (k * b) as int, q, k * r);
}

/// The gcd scales: `gcd(k a, k b) == k gcd(a, b)`.
pub proof fn lemma_gcd_scaled(k: nat, a: nat, b: nat)
    requires
        k > 0,
    ensures
        spec_gcd(k * a, k * b) == k * spec_gcd(a, b),
    decreases b,
{
    if b == 0 {
        assert(k * b == 0) by (nonlinear_arith)
            requires
                b == 0,
        ;
    } else {
        assert(k * b > 0) by (nonlinear_arith)
            requires
                b > 0,
                k > 0,
        ;
        lemma_mod_scaled(k, a, b);
        lemma_gcd_scaled(k, b, a % b);
        assert(spec_gcd(k * a, k * b) == spec_gcd(k * b, (k * a) % (k * b)));
    }
}

/// The gcd does not depend on argument order.
pub proof fn lemma_gcd_commutes(a: nat, b: nat)
    ensures
        spec_gcd(a, b) == spec_gcd(b, a),
{
    if a == 0 && b == 0 {
    } else if a == 0 {
        assert(spec_gcd(b, a) == b);
        assert(spec_gcd(a, b) == spec_gcd(b, 0));
    } else if b == 0 {
        assert(spec_gcd(b, a) == spec_gcd(a, 0));
    } else {
        lemma_gcd_divides(a, b);
        lemma_gcd_divides(b, a);
        lemma_gcd_greatest(a, b, spec_gcd(b, a) as int);
        lemma_gcd_greatest(b, a, spec_gcd(a, b) as int);
        lemma_divides_antisym(spec_gcd(a, b) as int, spec_gcd(b, a) as int);
    }
}

/// Dividing out the gcd leaves two coprime numbers.
pub proof fn lemma_gcd_quotients_coprime(a: nat, b: nat)
    requires
        a > 0 || b > 0,
    ensures
        spec_gcd(a, b) > 0,
        spec_gcd(a / spec_gcd(a, b), b / spec_gcd(a, b)) == 1,
{
    lemma_gcd_pos(a, b);
    lemma_gcd_divides(a, b);
    let g = spec_gcd(a, b);
    let p = a / g;
    let q = b / g;
    lemma_divides_elim(a as int, g as int);
    lemma_divides_elim(b as int, g as int);
    lemma_gcd_scaled(g, p, q);
    assert(g * p == a && g * q == b);
    let h = spec_gcd(p, q);
    assert(g * h == g);
    assert(h == 1) by (nonlinear_arith)
        requires
            g * h == g,
            g > 0,
    ;
}

/// Euclid's lemma: `z | x y` with `x` and `z` coprime gives `z | y`.
pub proof fn lemma_euclid(x: nat, y: nat, z: nat)
    requires
        z > 0,
        spec_gcd(x, z) == 1,
        divides(z as int, (x * y) as int),
    ensures
        divides(z as int, y as int),
{
    if y == 0 {
        lemma_divides_zero(z as int);
    } else {
        lemma_gcd_scaled(y, x, z);
        assert(y * x == x * y) by (nonlinear_arith);
        assert(spec_gcd(x * y, y * z) == y);
        assert(y * z == z * y) by (nonlinear_arith);
        lemma_divides_intro((y * z) as int, z as int, y as int);
        lemma_gcd_greatest(x * y, y * z, z as int);
    }
}

/// Coprime to both factors is coprime to the product.
pub proof fn lemma_coprime_product(x: nat, y: nat, z: nat)
    requires
        z > 0,
        spec_gcd(x, z) == 1,
        spec_gcd(y, z) == 1,
    ensures
        spec_gcd(x * y, z) == 1,
{
    lemma_gcd_pos(x * y, z);
    lemma_gcd_divides(x * y, z);
    let c = spec_gcd(x * y, z) as int;
    // c | x y and c | z y, and gcd(x y, z y) == y gcd(x, z) == y.
    if y == 0 {
        assert(x * y == 0) by (nonlinear_arith)
            requires
                y == 0,
        ;
        lemma_gcd_commutes(0, z);
        assert(spec_gcd(0, z) == z);
        assert(spec_gcd(y, z) == z);
    } else {
        lemma_divides_combination(c, z as int, 0, y as int, 0);
        assert(z * y == y * z) by (nonlinear_arith);
        assert(x * y == y * x) by (nonlinear_arith);
        lemma_gcd_scaled(y, x, z);
        lemma_gcd_greatest(x * y, z * y, c);
        assert(divides(c, y as int));
        lemma_gcd_greatest(y, z, c);
        lemma_divides_le(c, 1);
    }
}

/// A divisor of each of two coprime numbers gives two coprime numbers.
pub proof fn lemma_coprime_divisors(x: nat, z: nat, x1: nat, z1: nat)
    requires
        spec_gcd(x, z) == 1,
        z1 > 0,
        x1 > 0 || x == 0,
        x1 > 0 ==> divides(x1 as int, x as int),
        divides(z1 as int, z as int),
    ensures
        spec_gcd(x1, z1) == 1,
{
    lemma_gcd_pos(x1, z1);
    lemma_gcd_divides(x1, z1);
    let c = spec_gcd(x1, z1) as int;
    lemma_divides_trans(c, z1 as int, z as int);
    if x1 > 0 {
        lemma_divides_trans(c, x1 as int, x as int);
    } else {
        lemma_divides_zero(c);
    }
    lemma_gcd_greatest(x, z, c);
    lemma_divides_le(c, 1);
}

} // verus!
