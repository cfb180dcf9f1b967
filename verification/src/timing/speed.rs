//! Varispeed ratios held exactly, and the laws that produce them.
//!
//! One number reaches the audio: the playback speed ratio. `2` is twice as
//! fast and an octave up; `1/2` is half speed and an octave down. Pitch and
//! tempo always move together — this is a tape transport, not a pitch shifter,
//! and that is what lets a perfect loop stay a perfect loop.
//!
//! Fitting 103 BPM to 90 is the ratio 90/103; ±5 % is 21/20 or 19/20; a whole
//! octave is 2/1. Those ratios are rational, and while the ratio is rational
//! the resampled loop length stays a single rounding away from exact.

use crate::error::Error;
use crate::rational::{
    canonical, is_canonical, lemma_canonical_of_canonical, lemma_canonical_respects_value,
    lemma_product_of_spellings, lemma_product_positive, lemma_quotient_positive,
    lemma_unit_fraction, product, product_fits, quotient, reciprocal, round_half_up_of, sum,
    sum_fits, Rational,
};
use super::tempo::Tempo;
use vstd::prelude::*;

verus! {

/// `2^k`.
pub open spec fn power_of_two(k: nat) -> int
    decreases k,
{
    if k == 0 {
        1
    } else {
        2 * power_of_two((k - 1) as nat)
    }
}

/// `2^a <= 2^b` for `a <= b`, and every power is positive.
proof fn lemma_power_of_two_grows(a: nat, b: nat)
    requires
        a <= b,
    ensures
        1 <= power_of_two(a) <= power_of_two(b),
    decreases b,
{
    if b > a {
        lemma_power_of_two_grows(a, (b - 1) as nat);
    } else if a > 0 {
        lemma_power_of_two_grows((a - 1) as nat, (a - 1) as nat);
    }
}

/// `2^100`, which fits in an `i128` with room to spare.
proof fn lemma_power_of_two_100()
    ensures
        power_of_two(100) == 1267650600228229401496703205376int,
{
    reveal_with_fuel(power_of_two, 11);
    assert(power_of_two(10) == 1024);
    assert(power_of_two(20) == 1048576);
    assert(power_of_two(30) == 1073741824);
    assert(power_of_two(40) == 1099511627776);
    assert(power_of_two(50) == 1125899906842624);
    assert(power_of_two(60) == 1152921504606846976);
    assert(power_of_two(70) == 1180591620717411303424);
    assert(power_of_two(80) == 1208925819614629174706176);
    assert(power_of_two(90) == 1237940039285380274899124224);
}

/// `2^k` for `k <= 100`.
fn power_of_two_i128(k: u32) -> (p: i128)
    requires
        k <= 100,
    ensures
        p == power_of_two(k as nat),
        p > 0,
{
    proof {
        lemma_power_of_two_100();
    }
    let mut p: i128 = 1;
    let mut i: u32 = 0;
    while i < k
        invariant
            i <= k <= 100,
            p == power_of_two(i as nat),
            power_of_two(100) == 1267650600228229401496703205376int,
        decreases k - i,
    {
        proof {
            lemma_power_of_two_grows((i + 1) as nat, 100);
        }
        p = p * 2;
        i = i + 1;
    }
    proof {
        lemma_power_of_two_grows(0, k as nat);
    }
    p
}

/// `1 + p/100`: the speed a percentage change of nominal speed gives.
pub open spec fn percent_speed(p: (int, int)) -> (int, int) {
    sum((1, 1), quotient(p, (100, 1)))
}

/// A playback speed ratio, held exactly; always strictly positive.
#[derive(Copy, Clone, Debug, PartialEq, Eq, Structural)]
pub struct Ratio(Rational);

impl View for Ratio {
    type V = (int, int);

    /// The ratio as a fraction.
    closed spec fn view(&self) -> (int, int) {
        self.0@
    }
}

impl Ratio {
    /// A tape cannot run backwards here, and zero speed is not a speed.
    #[verifier::type_invariant]
    pub closed spec fn inv(self) -> bool {
        self.0@.0 > 0
    }

    /// What the type invariant says of the model.
    pub proof fn lemma_inv(r: Ratio)
        requires
            r.inv(),
        ensures
            r@.0 > 0,
    {
    }

    /// Normal speed.
    pub fn unity() -> (r: Ratio)
        ensures
            r@ == (1int, 1int),
    {
        Ratio(Rational::one())
    }

    /// An exact ratio; refused, as the fraction it is, unless strictly
    /// positive.
    pub fn exact(ratio: Rational) -> (r: Result<Ratio, Error>)
        ensures
            ratio@.0 > 0 ==> (r matches Ok(x) && x@ == ratio@),
            ratio@.0 <= 0 ==> r == Err::<Ratio, Error>(Error::SpeedRatio(ratio)),
    {
        if ratio.is_zero() || ratio.is_negative() {
            return Err(Error::SpeedRatio(ratio));
        }
        Ok(Ratio(ratio))
    }

    /// A whole number of octaves under the semitone law: `2^n`, or `1/2^-n`
    /// going down. Octaves come back exact — twelve semitones is 2/1, not
    /// 1.9999999999 — and a power of two up to a hundred octaves fits.
    pub fn from_octaves(octaves: i32) -> (r: Ratio)
        requires
            -100 <= octaves <= 100,
        ensures
            octaves >= 0 ==> r@ == (power_of_two(octaves as nat), 1int),
            octaves < 0 ==> r@ == (1int, power_of_two((-octaves) as nat)),
    {
        let n: u32 = if octaves >= 0 {
            octaves as u32
        } else {
            (-octaves) as u32
        };
        let p = power_of_two_i128(n);
        if octaves >= 0 {
            Ratio(Rational::from_int(p))
        } else {
            proof {
                lemma_unit_fraction(p as int);
            }
            Ratio(Rational::new(1, p))
        }
    }

    /// The speed law — real tape, a percentage of nominal speed: `1 + p/100`.
    ///
    /// Deliberately asymmetric: +50 % is +7.02 semitones while −50 % is −12.
    /// At −100 % or below the tape stops, and that is refused.
    pub fn from_percent(percent: Rational) -> (r: Result<Ratio, Error>)
        requires
            product_fits(percent@, (1, 100)),
            sum_fits((1, 1), quotient(percent@, (100, 1))),
        ensures
            percent_speed(percent@).0 > 0 ==> (r matches Ok(x) && x@ == percent_speed(
                percent@,
            )),
            percent_speed(percent@).0 <= 0 ==> (r matches Err(Error::SpeedRatio(q)) && q@
                == percent_speed(percent@)),
    {
        proof {
            use_type_invariant(&percent);
            Rational::lemma_inv(percent);
            lemma_unit_fraction(100);
            assert(reciprocal((100, 1)) == (1int, 100int));
        }
        let hundred = Rational::from_int(100);
        let q = percent.divided_by(hundred);
        Ratio::exact(Rational::one().plus(q))
    }

    /// The BPM-driven mode: the ratio that turns `from` into `to`, exactly.
    pub fn from_tempi(from: Tempo, to: Tempo) -> (r: Result<Ratio, Error>)
        requires
            product_fits(to@.0, reciprocal(from@.0)),
        ensures
            r matches Ok(x) && x@ == quotient(to@.0, from@.0),
    {
        let a = from.value();
        let b = to.value();
        proof {
            lemma_quotient_positive(b@, a@);
        }
        Ratio::exact(b.divided_by(a))
    }

    /// The ratio as a fraction.
    pub fn as_rational(self) -> (r: Rational)
        ensures
            r@ == self@,
            r.wf(),
            r@.0 > 0,
            r@.1 > 0,
    {
        proof {
            use_type_invariant(&self);
            use_type_invariant(&self.0);
            Rational::lemma_inv(self.0);
        }
        self.0
    }

    /// Normal speed exactly.
    pub fn is_unity(self) -> (r: bool)
        ensures
            r == (self@ == (1int, 1int)),
    {
        let v = self.as_rational();
        v.num() == 1 && v.den() == 1
    }

    /// The tempo a loop ends up at, exactly: the BPM value times the ratio,
    /// counting the same note value.
    pub fn resulting_tempo(self, from: Tempo) -> (r: Result<Tempo, Error>)
        requires
            product_fits(from@.0, self@),
        ensures
            r matches Ok(t) && t@ == (product(from@.0, self@), from@.1),
    {
        let v = self.as_rational();
        let b = from.value();
        proof {
            lemma_product_positive(b@, v@);
        }
        from.scaled(v)
    }

    /// Output length for an input of `frames`, rounded once: `frames / ratio`,
    /// half up.
    ///
    /// Only for material with no bar grid behind it: with a tempo and a bar
    /// count, `Grid::resampled_length` rounds from the exact bar mathematics
    /// instead of from an already-rounded length, which can differ by a sample.
    pub fn output_frames(self, frames: usize) -> (r: usize)
        requires
            product_fits((frames as int, 1), reciprocal(self@)),
        ensures
            r == round_half_up_of(quotient((frames as int, 1), self@)) as usize,
    {
        let v = self.as_rational();
        let n = Rational::from_int(frames as i128);
        let q = n.divided_by(v);
        let s = q.round_half_up();
        s as usize
    }
}

/// Fitting one tempo to another lands on it exactly: `from · (to / from)` is
/// `to`, not 89.99999 for 90.
pub proof fn law_fitting_lands_on_the_target_tempo(from: (int, int), to: (int, int))
    requires
        is_canonical(from),
        is_canonical(to),
        from.0 > 0,
    ensures
        quotient(to, from).0 > 0 <== to.0 > 0,
        product(from, quotient(to, from)) == to,
{
    let (f0, f1) = from;
    let (t0, t1) = to;
    lemma_canonical_of_canonical(from);
    lemma_canonical_of_canonical(to);
    assert(t1 * f0 != 0 && f1 * (t1 * f0) != 0) by (nonlinear_arith)
        requires
            f0 > 0,
            f1 > 0,
            t1 > 0,
    ;
    lemma_product_of_spellings(f0, f1, t0 * f1, t1 * f0);
    assert((f0 * (t0 * f1)) * t1 == t0 * (f1 * (t1 * f0))) by (nonlinear_arith);
    lemma_canonical_respects_value(f0 * (t0 * f1), f1 * (t1 * f0), t0, t1);
    if to.0 > 0 {
        lemma_quotient_positive(to, from);
    }
}

/// Unity speed changes nothing: a tempo times `1/1`, and a length divided by
/// it, are what they were.
pub proof fn law_unity_changes_nothing(x: (int, int))
    requires
        is_canonical(x),
    ensures
        product(x, (1, 1)) == x,
        quotient(x, (1, 1)) == x,
{
    lemma_canonical_of_canonical(x);
    assert(x.0 * 1 == x.0 && x.1 * 1 == x.1);
}

} // verus!
