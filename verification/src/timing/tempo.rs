//! A tempo: an exact BPM value and the note value it counts.

use crate::error::Error;
use crate::rational::{
    canonical, fits, fraction_text, is_canonical, lemma_canonical, lemma_canonical_of_canonical,
    lemma_canonical_respects_value, lemma_product_of_spellings, product, product_fits,
    reciprocal, Rational,
};
use crate::text::{
    all_digits, all_digits_in, chars_of, digits_value, find_char, first_index, i128_text,
    lemma_digits_below_pow10, lemma_pow10_fits, lemma_pow10_grows, parse_i128, pow10,
    pow10_i128, string_of, trim, trim_range,
};
use super::signature::BpmUnit;
use vstd::prelude::*;

verus! {

/// The fraction a decimal `W.F` spells: `(W·10^k ± F) / 10^k` for `k` digits
/// of `F`, the sign of `W` carried onto `F`, so `-0.5` is minus one half and
/// `-1.5` minus three halves. An empty `W` is zero; `F` is one or more plain
/// digits; every step fits in an `i128`.
pub open spec fn decimal_fraction(whole: Seq<char>, frac: Seq<char>) -> Option<(i128, i128)> {
    let w: Option<i128> = if whole.len() == 0 {
        Some(0i128)
    } else {
        i128_text(whole)
    };
    let negative = whole.len() > 0 && whole[0] == '-';
    let p = pow10(frac.len());
    let f = digits_value(frac);
    match w {
        Some(w) => {
            let num = if negative {
                w * p - f
            } else {
                w * p + f
            };
            if frac.len() > 0 && all_digits(frac) && fits(p) && fits(w * p) && fits(num) {
                Some((num as i128, p as i128))
            } else {
                None
            }
        },
        None => None,
    }
}

/// The numerator and denominator that already-trimmed tempo text spells,
/// before reduction: `N/D` (each side trimmed, `D` nonzero), `W.F`, or a
/// plain integer.
pub open spec fn trimmed_fraction(t: Seq<char>) -> Option<(i128, i128)> {
    match first_index(t, '/') {
        Some(i) => match (i128_text(trim(t.take(i))), i128_text(trim(t.skip(i + 1)))) {
            (Some(n), Some(d)) => if d == 0 {
                None
            } else {
                Some((n, d))
            },
            _ => None,
        },
        None => match first_index(t, '.') {
            Some(j) => decimal_fraction(t.take(j), t.skip(j + 1)),
            None => match i128_text(t) {
                Some(n) => Some((n, 1i128)),
                None => None,
            },
        },
    }
}

/// The fraction tempo text spells, surrounding whitespace ignored.
pub open spec fn tempo_fraction(s: Seq<char>) -> Option<(i128, i128)> {
    trimmed_fraction(trim(s))
}

/// A spelled fraction never has a zero denominator.
proof fn lemma_fraction_denominator(t: Seq<char>)
    ensures
        trimmed_fraction(t) matches Some((n, d)) ==> d != 0,
{
    match first_index(t, '/') {
        Some(i) => {},
        None => match first_index(t, '.') {
            Some(j) => {
                lemma_pow10_grows(0, t.skip(j + 1).len());
            },
            None => {},
        },
    }
}

/// A spelled fraction whose reduction would negate `i128::MIN`.
pub open spec fn negation_overflows(f: Option<(i128, i128)>) -> bool {
    match f {
        Some((n, d)) => d < 0 && (n == i128::MIN || d == i128::MIN),
        None => false,
    }
}

/// `W.F` in `v[lo..hi]`, the dot at `j`.
fn read_decimal(v: &Vec<char>, lo: usize, j: usize, hi: usize) -> (r: Option<(i128, i128)>)
    requires
        lo <= j < hi <= v.len(),
    ensures
        r == decimal_fraction(v@.subrange(lo as int, j as int), v@.subrange(j + 1, hi as int)),
{
    let ghost whole = v@.subrange(lo as int, j as int);
    let ghost frac = v@.subrange(j + 1, hi as int);
    let w: i128 = if lo == j {
        0
    } else {
        match parse_i128(v, lo, j) {
            Some(x) => x,
            None => {
                return None;
            },
        }
    };
    let k = hi - (j + 1);
    if k == 0 || !all_digits_in(v, j + 1, hi) {
        return None;
    }
    proof {
        lemma_pow10_fits(k as nat);
    }
    if k > 38 {
        return None;
    }
    let p = pow10_i128(k);
    proof {
        lemma_digits_below_pow10(frac);
        lemma_pow10_grows(k as nat, 38);
        lemma_pow10_fits(38);
        assert(frac[0] != '-' && frac[0] != '+') by {
            assert(crate::text::is_digit(frac[0]));
        }
    }
    let f = match parse_i128(v, j + 1, hi) {
        Some(x) => x,
        None => {
            return None;
        },
    };
    let negative = lo < j && v[lo] == '-';
    proof {
        if lo < j {
            assert(whole[0] == v@[lo as int]);
        }
    }
    match w.checked_mul(p) {
        None => None,
        Some(m) => {
            let num = if negative {
                m.checked_sub(f)
            } else {
                m.checked_add(f)
            };
            match num {
                None => None,
                Some(num) => Some((num, p)),
            }
        },
    }
}

/// The fraction `v[lo..hi]` spells, which is already trimmed.
fn read_fraction(v: &Vec<char>, lo: usize, hi: usize) -> (r: Option<(i128, i128)>)
    requires
        lo <= hi <= v.len(),
    ensures
        r == trimmed_fraction(v@.subrange(lo as int, hi as int)),
{
    let ghost t = v@.subrange(lo as int, hi as int);
    match find_char(v, lo, hi, '/') {
        Some(i) => {
            proof {
                assert(t.take(i - lo) =~= v@.subrange(lo as int, i as int));
                assert(t.skip(i - lo + 1) =~= v@.subrange(i + 1, hi as int));
            }
            let (n0, n1) = trim_range(v, lo, i);
            let (d0, d1) = trim_range(v, i + 1, hi);
            match (parse_i128(v, n0, n1), parse_i128(v, d0, d1)) {
                (Some(n), Some(d)) => if d == 0 {
                    None
                } else {
                    Some((n, d))
                },
                _ => None,
            }
        },
        None => match find_char(v, lo, hi, '.') {
            Some(j) => {
                proof {
                    assert(t.take(j - lo) =~= v@.subrange(lo as int, j as int));
                    assert(t.skip(j - lo + 1) =~= v@.subrange(j + 1, hi as int));
                }
                read_decimal(v, lo, j, hi)
            },
            None => match parse_i128(v, lo, hi) {
                Some(n) => Some((n, 1)),
                None => None,
            },
        },
    }
}

/// A tempo: an exact BPM value plus the note value it counts.
#[derive(Copy, Clone, Debug, PartialEq, Eq, Structural)]
pub struct Tempo {
    bpm: Rational,
    unit: BpmUnit,
}

impl View for Tempo {
    type V = ((int, int), (int, int));

    /// The BPM value, and the unit as a fraction of a whole note.
    closed spec fn view(&self) -> ((int, int), (int, int)) {
        (self.bpm@, self.unit.value())
    }
}

impl Tempo {
    /// A tempo is strictly positive.
    #[verifier::type_invariant]
    pub closed spec fn inv(self) -> bool {
        self.bpm@.0 > 0
    }

    /// What the type invariant says of the model.
    pub proof fn lemma_inv(t: Tempo)
        requires
            t.inv(),
        ensures
            t@.0.0 > 0,
    {
    }

    /// A tempo of `bpm` counting `unit`.
    ///
    /// A BPM value that is not strictly positive is refused, written as the
    /// fraction it is.
    pub fn new(bpm: Rational, unit: BpmUnit) -> (r: Result<Tempo, Error>)
        ensures
            bpm@.0 > 0 ==> (r matches Ok(t) && t@ == (bpm@, unit.value())),
            bpm@.0 <= 0 ==> (r matches Err(Error::Tempo(text)) && text@ == fraction_text(bpm@)),
    {
        if bpm.is_zero() || bpm.is_negative() {
            return Err(Error::Tempo(bpm.to_string()));
        }
        Ok(Tempo { bpm, unit })
    }

    /// Integer BPM against the default quarter-note unit — the common case.
    pub fn bpm(bpm: u32) -> (r: Result<Tempo, Error>)
        ensures
            bpm > 0 ==> (r matches Ok(t) && t@ == ((bpm as int, 1int), (1int, 4int))),
            bpm == 0 ==> (r matches Err(Error::Tempo(text)) && text@ == fraction_text((0, 1))),
    {
        Tempo::new(Rational::from_int(bpm as i128), BpmUnit::quarter())
    }

    /// The BPM value.
    pub fn value(self) -> (r: Rational)
        ensures
            r@ == self@.0,
            r.wf(),
            r@.0 > 0,
    {
        proof {
            use_type_invariant(&self);
            use_type_invariant(&self.bpm);
            Rational::lemma_inv(self.bpm);
        }
        self.bpm
    }

    /// The note value one beat counts.
    pub fn unit(self) -> (r: BpmUnit)
        ensures
            r.value() == self@.1,
    {
        self.unit
    }

    /// The same BPM value, counting another note value.
    pub fn with_unit(self, unit: BpmUnit) -> (r: Tempo)
        ensures
            r@ == (self@.0, unit.value()),
    {
        proof {
            use_type_invariant(&self);
        }
        Tempo { unit, ..self }
    }

    /// Scales the tempo by a varispeed ratio, exactly.
    ///
    /// A product that leaves `i128` has no value; a ratio that is not
    /// strictly positive gives a tempo that is refused.
    pub fn scaled(self, ratio: Rational) -> (r: Result<Tempo, Error>)
        requires
            product_fits(self@.0, ratio@),
        ensures
            product(self@.0, ratio@).0 > 0 ==> (r matches Ok(t) && t@ == (
                product(self@.0, ratio@),
                self@.1,
            )),
            product(self@.0, ratio@).0 <= 0 ==> (r matches Err(Error::Tempo(text)) && text@
                == fraction_text(product(self@.0, ratio@))),
    {
        let b = self.value();
        proof {
            use_type_invariant(&ratio);
            Rational::lemma_inv(ratio);
        }
        Tempo::new(b.times(ratio), self.unit)
    }

    /// Parses `103`, `103.5`, or an explicit fraction `207/2`, against the
    /// quarter-note unit. Surrounding whitespace is ignored.
    ///
    /// Decimal input is exact: `103.5` is `1035/10`, never `103.49999…`, and
    /// the sign of the whole part covers the decimals, so `-0.5` is minus one
    /// half. Text that spells no fraction is refused as written (trimmed); a
    /// fraction that is not strictly positive is refused as the reduced
    /// fraction.
    /// A negative denominator is moved to the numerator, which `i128::MIN`
    /// cannot survive.
    pub fn parse(s: &str) -> (r: Result<Tempo, Error>)
        requires
            !negation_overflows(tempo_fraction(s@)),
        ensures
            match tempo_fraction(s@) {
                None => r matches Err(Error::Tempo(text)) && text@ == trim(s@),
                Some((n, d)) => {
                    let v = canonical(n as int, d as int);
                    if v.0 > 0 {
                        r matches Ok(t) && t@ == (v, (1int, 4int))
                    } else {
                        r matches Err(Error::Tempo(text)) && text@ == fraction_text(v)
                    }
                },
            },
    {
        let v = chars_of(s);
        let (a, b) = trim_range(&v, 0, v.len());
        proof {
            assert(v@.subrange(0, v.len() as int) =~= s@);
        }
        proof {
            lemma_fraction_denominator(v@.subrange(a as int, b as int));
        }
        match read_fraction(&v, a, b) {
            None => Err(Error::Tempo(string_of(&v, a, b))),
            Some((n, d)) => Tempo::new(Rational::new(n, d), BpmUnit::quarter()),
        }
    }
}

impl core::str::FromStr for Tempo {
    type Err = Error;

    /// [`Tempo::parse`]; the one text it does not take, a negative
    /// denominator whose negation overflows, is refused as written.
    fn from_str(s: &str) -> (r: Result<Tempo, Error>)
        ensures
            match tempo_fraction(s@) {
                None => r matches Err(Error::Tempo(text)) && text@ == trim(s@),
                Some((n, d)) => {
                    let v = canonical(n as int, d as int);
                    if negation_overflows(tempo_fraction(s@)) {
                        r matches Err(Error::Tempo(text)) && text@ == trim(s@)
                    } else if v.0 > 0 {
                        r matches Ok(t) && t@ == (v, (1int, 4int))
                    } else {
                        r matches Err(Error::Tempo(text)) && text@ == fraction_text(v)
                    }
                },
            },
    {
        let v = chars_of(s);
        let (a, b) = trim_range(&v, 0, v.len());
        proof {
            assert(v@.subrange(0, v.len() as int) =~= s@);
        }
        match read_fraction(&v, a, b) {
            Some((n, d)) => if d < 0 && (n == i128::MIN || d == i128::MIN) {
                Err(Error::Tempo(string_of(&v, a, b)))
            } else {
                Tempo::parse(s)
            },
            None => Tempo::parse(s),
        }
    }
}

/// Scaling is exact: a tempo scaled by a ratio and then by the reciprocal
/// of that ratio is the tempo it started as.
pub proof fn law_scaling_round_trip(bpm: (int, int), ratio: (int, int))
    requires
        is_canonical(bpm),
        is_canonical(ratio),
        ratio.0 != 0,
    ensures
        product(product(bpm, ratio), reciprocal(ratio)) == bpm,
{
    let (x0, x1) = bpm;
    let (y0, y1) = ratio;
    lemma_canonical_of_canonical(bpm);
    assert(x1 * y1 != 0) by (nonlinear_arith)
        requires
            x1 > 0,
            y1 > 0,
    ;
    lemma_product_of_spellings(x0 * y0, x1 * y1, y1, y0);
    assert((x0 * y0 * y1) * x1 == x0 * (x1 * y1 * y0)) by (nonlinear_arith);
    assert(x1 * y1 * y0 != 0) by (nonlinear_arith)
        requires
            x1 * y1 != 0,
            y0 != 0,
    ;
    lemma_canonical_respects_value(x0 * y0 * y1, x1 * y1 * y0, x0, x1);
}

} // verus!
