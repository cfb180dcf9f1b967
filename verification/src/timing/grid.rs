//! The bar grid — the single authority on where a cut lands.
//!
//! Everything here is exact. A cut point is one `i128` product, one division
//! and one round-half-up; it is never accumulated bar by bar, so there is no
//! drift to accumulate in the first place.

use crate::arith::spec_gcd;
use crate::error::Error;
use crate::rational::{
    canonical, difference, is_canonical, lemma_canonical, lemma_canonical_of_canonical,
    lemma_canonical_respects_value, lemma_gcd_one, lemma_positive_spelling,
    lemma_product_of_spellings, lemma_product_positive, lemma_quotient_of_spellings,
    lemma_quotient_positive, lemma_round_respects_value, law_round_half_up_is_nearest, product,
    product_fits, quotient, reciprocal, round_half_up_of, sum_fits, value_lt, Rational,
};
use super::signature::TimeSignature;
use super::speed::Ratio;
use super::tempo::Tempo;
use vstd::prelude::*;

verus! {

/// Seconds that `whole` whole notes last at `bpm` beats of `unit` per
/// minute: `60 · whole / (bpm · unit)`, reduced.
pub open spec fn whole_note_seconds(bpm: (int, int), unit: (int, int), whole: (int, int)) -> (
    int,
    int,
) {
    canonical(60 * whole.0 * unit.1 * bpm.1, bpm.0 * whole.1 * unit.0)
}

/// Every intermediate of `60 / bpm · whole / unit` fits in an `i128`.
pub open spec fn whole_note_chain_fits(bpm: (int, int), unit: (int, int), whole: (int, int)) -> bool {
    let q = quotient((60, 1), bpm);
    &&& product_fits((60, 1), reciprocal(bpm))
    &&& product_fits(q, whole)
    &&& product_fits(product(q, whole), reciprocal(unit))
}

/// The numerator every bar line shares: `SR · 60 · N · b · q`, for a tempo of
/// `p/q` beats of `a/b` whole notes per minute, in `N/D` time, at `SR` samples
/// per second.
pub open spec fn grid_numerator(bpm: (int, int), unit: (int, int), sig: TimeSignature, sr: int) -> int {
    sr * (60 * sig.num * unit.1 * bpm.1)
}

/// The denominator every bar line shares: `p · D · a`.
pub open spec fn grid_denominator(bpm: (int, int), unit: (int, int), sig: TimeSignature) -> int {
    bpm.0 * sig.den * unit.0
}

/// Bar length in seconds: `60 · N · b · q / (p · D · a)`, reduced.
pub open spec fn bar_seconds(bpm: (int, int), unit: (int, int), sig: TimeSignature) -> (int, int) {
    canonical(60 * sig.num * unit.1 * bpm.1, grid_denominator(bpm, unit, sig))
}

/// Bar length in samples: `SR · 60 · N · b · q / (p · D · a)`, reduced.
pub open spec fn bar_samples(bpm: (int, int), unit: (int, int), sig: TimeSignature, sr: int) -> (
    int,
    int,
) {
    canonical(grid_numerator(bpm, unit, sig, sr), grid_denominator(bpm, unit, sig))
}

/// The exact sample position of bar line `bar`:
/// `bar · SR · 60 · N · b · q / (p · D · a)`, reduced — one product, one
/// division, never a running sum.
pub open spec fn bar_position(
    bpm: (int, int),
    unit: (int, int),
    sig: TimeSignature,
    sr: int,
    bar: int,
) -> (int, int) {
    canonical(bar * grid_numerator(bpm, unit, sig, sr), grid_denominator(bpm, unit, sig))
}

/// What every tempo's model is: two reduced, strictly positive fractions.
pub open spec fn tempo_model(bpm: (int, int), unit: (int, int)) -> bool {
    is_canonical(bpm) && bpm.0 > 0 && is_canonical(unit) && unit.0 > 0
}

/// The bar length in seconds can be computed without leaving `i128`.
pub open spec fn seconds_fit(bpm: (int, int), unit: (int, int), sig: TimeSignature) -> bool {
    sig.den != 0 && whole_note_chain_fits(bpm, unit, canonical(sig.num as int, sig.den as int))
}

/// The bar length in samples can be computed without leaving `i128`.
pub open spec fn samples_fit(bpm: (int, int), unit: (int, int), sig: TimeSignature, sr: int) -> bool {
    seconds_fit(bpm, unit, sig) && product_fits(bar_seconds(bpm, unit, sig), (sr, 1))
}

/// Bar line `bar` can be placed without leaving `i128`.
pub open spec fn position_fits(
    bpm: (int, int),
    unit: (int, int),
    sig: TimeSignature,
    sr: int,
    bar: int,
) -> bool {
    samples_fit(bpm, unit, sig, sr) && product_fits(bar_samples(bpm, unit, sig, sr), (bar, 1))
}

/// `(60, 1)` and any whole number `k` over one are reduced.
proof fn lemma_whole(k: int)
    ensures
        is_canonical((k, 1)),
        canonical(k, 1) == (k, 1int),
{
    lemma_gcd_one(crate::arith::abs(k));
    lemma_canonical_of_canonical((k, 1));
}

/// `60 / bpm · whole / unit` is the closed form, for reduced positive inputs.
proof fn lemma_whole_note_chain(bpm: (int, int), unit: (int, int), whole: (int, int))
    requires
        tempo_model(bpm, unit),
        is_canonical(whole),
    ensures
        quotient(product(quotient((60, 1), bpm), whole), unit) == whole_note_seconds(
            bpm,
            unit,
            whole,
        ),
{
    let (p, q) = bpm;
    let (a, b) = unit;
    let (w, v) = whole;
    lemma_whole(60);
    lemma_canonical_of_canonical(bpm);
    lemma_canonical_of_canonical(unit);
    lemma_canonical_of_canonical(whole);
    lemma_quotient_of_spellings(60, 1, p, q);
    assert(60 * q == 60 * q && 1 * p == p);
    lemma_product_of_spellings(60 * q, p, w, v);
    assert(p * v != 0) by (nonlinear_arith)
        requires
            p > 0,
            v > 0,
    ;
    lemma_quotient_of_spellings(60 * q * w, p * v, a, b);
    assert((60 * q * w) * b == 60 * w * b * q) by (nonlinear_arith);
    assert((p * v) * a == p * v * a) by (nonlinear_arith);
}

/// Scaling a reduced spelling by a whole number: `c · k/1 = (n · k) / d`.
proof fn lemma_scale_spelling(n: int, d: int, k: int)
    requires
        d != 0,
    ensures
        product(canonical(n, d), (k, 1)) == canonical(n * k, d),
{
    lemma_whole(k);
    lemma_product_of_spellings(n, d, k, 1);
    assert(d * 1 == d);
}

/// The three levels of the grid, from the chain the code computes.
proof fn lemma_grid_levels(bpm: (int, int), unit: (int, int), sig: TimeSignature, sr: int, bar: int)
    requires
        tempo_model(bpm, unit),
        sig.den > 0,
    ensures
        whole_note_seconds(bpm, unit, canonical(sig.num as int, sig.den as int)) == bar_seconds(
            bpm,
            unit,
            sig,
        ),
        product(bar_seconds(bpm, unit, sig), (sr, 1)) == bar_samples(bpm, unit, sig, sr),
        product(bar_samples(bpm, unit, sig, sr), (bar, 1)) == bar_position(
            bpm,
            unit,
            sig,
            sr,
            bar,
        ),
        grid_denominator(bpm, unit, sig) > 0,
        grid_numerator(bpm, unit, sig, sr) * bar >= 0 <== sr >= 0 && bar >= 0,
{
    let (p, q) = bpm;
    let (a, b) = unit;
    let n = sig.num as int;
    let d = sig.den as int;
    let c = canonical(n, d);
    lemma_canonical(n, d);
    let top = 60 * n * b * q;
    let den = grid_denominator(bpm, unit, sig);
    assert(den > 0) by (nonlinear_arith)
        requires
            den == p * d * a,
            p > 0,
            d > 0,
            a > 0,
    ;
    // Seconds: the reduced N/D can stand for N/D itself.
    let k = 60 * b * q * p * a;
    assert((60 * c.0 * b * q) * (p * d * a) == (c.0 * d) * k) by (nonlinear_arith)
        requires
            k == 60 * b * q * p * a,
    ;
    assert((60 * n * b * q) * (p * c.1 * a) == (n * c.1) * k) by (nonlinear_arith)
        requires
            k == 60 * b * q * p * a,
    ;
    assert((60 * c.0 * b * q) * den == top * (p * c.1 * a));
    assert(p * c.1 * a != 0) by (nonlinear_arith)
        requires
            p > 0,
            c.1 > 0,
            a > 0,
    ;
    lemma_canonical_respects_value(60 * c.0 * b * q, p * c.1 * a, top, den);
    // Samples and positions: one whole-number factor each.
    lemma_scale_spelling(top, den, sr);
    assert(top * sr == sr * top) by (nonlinear_arith);
    lemma_scale_spelling(sr * top, den, bar);
    assert((sr * top) * bar == bar * (sr * top)) by (nonlinear_arith);
    assert(sr >= 0 && bar >= 0 ==> (sr * top) * bar >= 0) by (nonlinear_arith)
        requires
            top == 60 * n * b * q,
            n >= 0,
            b > 0,
            q > 0,
    ;
}

/// Rounding a non-negative fraction half up gives a non-negative integer.
proof fn lemma_round_nonnegative(p: (int, int))
    requires
        p.0 >= 0,
        p.1 > 0,
    ensures
        round_half_up_of(p) >= 0,
{
    law_round_half_up_is_nearest(p);
    assert(round_half_up_of(p) >= 0) by (nonlinear_arith)
        requires
            2 * p.0 < (2 * round_half_up_of(p) + 1) * p.1,
            p.0 >= 0,
            p.1 > 0,
    ;
}

/// Which of the two constraints wins when the bar length is not a whole number
/// of samples — they cannot both hold at once.
#[derive(Copy, Clone, Debug, PartialEq, Eq, Structural)]
pub enum Align {
    /// Cut-in on the grid, length = `round(loop_bars · samples_per_bar)`.
    ///
    /// The default: for a loop, a length that is exactly right matters more
    /// than an end marker that sits on the grid, because the length is what
    /// determines whether it stays in sync after the hundredth repeat.
    Loop,
    /// Both markers on the grid; the length may differ by a sample.
    Grid,
}

impl Default for Align {
    fn default() -> (a: Align)
        ensures
            a == Align::Loop,
    {
        Align::Loop
    }
}

impl Align {
    /// `loop` or `grid`.
    pub fn to_string(&self) -> (s: String)
        ensures
            *self == Align::Loop ==> s@ == "loop"@,
            *self == Align::Grid ==> s@ == "grid"@,
    {
        match self {
            Align::Loop => String::from_str("loop"),
            Align::Grid => String::from_str("grid"),
        }
    }
}

/// A half-open sample region `[start, end)`.
#[derive(Copy, Clone, Debug, PartialEq, Eq, Structural)]
pub struct Region {
    pub start: u64,
    pub end: u64,
}

impl Region {
    /// `end - start`, for a region that does not end before it starts.
    pub fn len(self) -> (r: u64)
        requires
            self.start <= self.end,
        ensures
            r == self.end - self.start,
    {
        self.end - self.start
    }

    pub fn is_empty(self) -> (r: bool)
        ensures
            r == (self.end == self.start),
    {
        self.end == self.start
    }

    /// The part of the region a source of `available` frames holds, and how
    /// many frames of the region it does not: the start is pulled back to the
    /// end of the source, and the end into `[start, available]`.
    pub fn within(self, available: u64) -> (r: (Region, u64))
        requires
            self.start <= self.end,
        ensures
            r.0.start == (if self.start <= available { self.start } else { available }),
            r.0.end == (if self.end <= available { self.end } else { available }),
            r.0.start <= r.0.end,
            r.1 == (self.end - self.start) - (r.0.end - r.0.start),
    {
        let start = if self.start <= available { self.start } else { available };
        let end = if self.end <= available { self.end } else { available };
        (Region { start, end }, (self.end - self.start) - (end - start))
    }
}

/// How far a rounded sample position sits from the exact one.
#[derive(Copy, Clone, Debug, PartialEq, Eq, Structural)]
pub struct Residual {
    /// Rounded minus exact, in samples. Always within ±1/2 for a bar line.
    pub samples: Rational,
    /// The sample rate the error is counted at.
    pub sample_rate: u32,
    /// The exact position or length the error is measured against.
    pub exact_samples: Rational,
}

impl Residual {
    /// Rounded minus exact, in samples: the public `samples` field.
    pub open spec fn error(self) -> Rational {
        self.samples
    }

    /// The sample rate the error is counted at.
    pub open spec fn rate(self) -> u32 {
        self.sample_rate
    }

    /// The exact position or length the error is measured against.
    pub open spec fn exact(self) -> Rational {
        self.exact_samples
    }

    /// The sample rate the error is counted at.
    pub fn sample_rate(&self) -> (r: u32)
        ensures
            r == self.rate(),
    {
        self.sample_rate
    }

    /// The exact position or length the error is measured against.
    pub fn exact_samples(&self) -> (r: Rational)
        ensures
            r == self.exact(),
    {
        self.exact_samples
    }

    /// True when the position lands on an exact sample — no rounding at all.
    pub fn is_exact(&self) -> (r: bool)
        ensures
            r == (self.error()@.0 == 0),
    {
        self.samples.is_zero()
    }
}

/// Tempo, meter and sample rate — everything needed to place a bar line.
#[derive(Copy, Clone, Debug, PartialEq, Eq, Structural)]
pub struct Grid {
    pub tempo: Tempo,
    pub sig: TimeSignature,
    pub sample_rate: u32,
}

impl Grid {
    /// The tempo's BPM value.
    pub open spec fn bpm(self) -> (int, int) {
        self.tempo@.0
    }

    /// The note value the tempo counts.
    pub open spec fn unit(self) -> (int, int) {
        self.tempo@.1
    }

    /// The exact position of bar line `bar`.
    pub open spec fn position(self, bar: int) -> (int, int) {
        bar_position(self.bpm(), self.unit(), self.sig, self.sample_rate as int, bar)
    }

    /// Bar line `bar` can be placed without leaving `i128`.
    pub open spec fn fits(self, bar: int) -> bool {
        position_fits(self.bpm(), self.unit(), self.sig, self.sample_rate as int, bar)
    }

    /// The sample bar line `bar` rounds to, before it is stored in a `u64`.
    pub open spec fn rounded(self, bar: int) -> int {
        round_half_up_of(self.position(bar))
    }

    /// A grid at `tempo`, in `sig`, at `sample_rate` samples per second.
    pub fn new(tempo: Tempo, sig: TimeSignature, sample_rate: u32) -> (g: Grid)
        requires
            sample_rate > 0,
        ensures
            g == (Grid { tempo, sig, sample_rate }),
    {
        Grid { tempo, sig, sample_rate }
    }

    /// The tempo's two fractions, with what every tempo satisfies.
    fn tempo_parts(&self) -> (r: (Rational, Rational))
        ensures
            r.0@ == self.bpm(),
            r.1@ == self.unit(),
            r.0.wf(),
            r.1.wf(),
            tempo_model(self.bpm(), self.unit()),
    {
        let b = self.tempo.value();
        let u = self.tempo.unit().whole_notes();
        (b, u)
    }

    /// How long `whole_notes` of music lasts, in seconds:
    /// `60 / BPM · whole_notes / unit`.
    ///
    /// The shape every length on this grid comes from: a bar is
    /// `TimeSignature::whole_notes_per_bar` of it, a note value is its own
    /// fraction of a whole note.
    pub fn seconds_per_whole_notes(&self, whole_notes: Rational) -> (r: Rational)
        requires
            whole_note_chain_fits(self.bpm(), self.unit(), whole_notes@),
        ensures
            r.wf(),
            r@ == whole_note_seconds(self.bpm(), self.unit(), whole_notes@),
    {
        let (bpm, unit) = self.tempo_parts();
        proof {
            use_type_invariant(&whole_notes);
            Rational::lemma_inv(whole_notes);
            lemma_whole(60);
            lemma_whole_note_chain(bpm@, unit@, whole_notes@);
        }
        Rational::from_int(60).divided_by(bpm).times(whole_notes).divided_by(unit)
    }

    /// Bar length in seconds: `(60/BPM) · (N/D) / U` = `60·N·b·q / (p·D·a)`.
    pub fn seconds_per_bar(&self) -> (r: Rational)
        requires
            seconds_fit(self.bpm(), self.unit(), self.sig),
        ensures
            r.wf(),
            r@ == bar_seconds(self.bpm(), self.unit(), self.sig),
    {
        let (bpm, unit) = self.tempo_parts();
        proof {
            lemma_grid_levels(bpm@, unit@, self.sig, 0, 0);
        }
        self.seconds_per_whole_notes(self.sig.whole_notes_per_bar())
    }

    /// Whether bar line `bar` can be placed without leaving `i128`: each
    /// step of the exact arithmetic is checked before it is taken.
    pub fn can_place(&self, bar: u64) -> (r: bool)
        ensures
            r == self.fits(bar as int),
    {
        let (bpm, unit) = self.tempo_parts();
        if self.sig.den == 0 {
            return false;
        }
        let sixty = Rational::from_int(60);
        let inv = bpm.recip();
        if !sixty.fits_times(inv) {
            return false;
        }
        let q = sixty.divided_by(bpm);
        let whole = self.sig.whole_notes_per_bar();
        if !q.fits_times(whole) {
            return false;
        }
        let qw = q.times(whole);
        let uinv = unit.recip();
        if !qw.fits_times(uinv) {
            return false;
        }
        let secs = self.seconds_per_bar();
        if !secs.fits_times(Rational::from_int(self.sample_rate as i128)) {
            return false;
        }
        let samples = self.samples_per_bar();
        samples.fits_times(Rational::from_int(bar as i128))
    }

    /// Bar length in samples — exact, generally not an integer.
    pub fn samples_per_bar(&self) -> (r: Rational)
        requires
            samples_fit(self.bpm(), self.unit(), self.sig, self.sample_rate as int),
        ensures
            r.wf(),
            r@ == bar_samples(self.bpm(), self.unit(), self.sig, self.sample_rate as int),
    {
        let (bpm, unit) = self.tempo_parts();
        proof {
            lemma_grid_levels(bpm@, unit@, self.sig, self.sample_rate as int, 0);
            lemma_whole(self.sample_rate as int);
        }
        self.seconds_per_bar().times(Rational::from_int(self.sample_rate as i128))
    }

    /// Beat length in samples, where a beat is one BPM unit: `60 / BPM · SR`.
    pub fn samples_per_beat(&self) -> (r: Rational)
        requires
            product_fits((60, 1), reciprocal(self.bpm())),
            product_fits(quotient((60, 1), self.bpm()), (self.sample_rate as int, 1)),
        ensures
            r.wf(),
            r@ == canonical(60 * self.bpm().1 * self.sample_rate, self.bpm().0),
    {
        let (bpm, unit) = self.tempo_parts();
        proof {
            lemma_whole(60);
            lemma_whole(self.sample_rate as int);
            lemma_canonical_of_canonical(bpm@);
            lemma_quotient_of_spellings(60, 1, bpm@.0, bpm@.1);
            assert(1 * bpm@.0 == bpm@.0);
            lemma_scale_spelling(60 * bpm@.1, bpm@.0, self.sample_rate as int);
        }
        Rational::from_int(60).divided_by(bpm).times(Rational::from_int(self.sample_rate as i128))
    }

    /// The exact, unrounded sample position of bar line `bar`.
    pub fn exact_sample(&self, bar: u64) -> (r: Rational)
        requires
            self.fits(bar as int),
        ensures
            r.wf(),
            r@ == self.position(bar as int),
            r@.0 >= 0,
    {
        let (bpm, unit) = self.tempo_parts();
        proof {
            lemma_grid_levels(bpm@, unit@, self.sig, self.sample_rate as int, bar as int);
            lemma_whole(bar as int);
            lemma_positive_spelling(
                bar * grid_numerator(bpm@, unit@, self.sig, self.sample_rate as int),
                grid_denominator(bpm@, unit@, self.sig),
            );
        }
        self.samples_per_bar().times(Rational::from_int(bar as i128))
    }

    /// The region a cut keeps: `skip_bars` of warmup skipped, `loop_bars`
    /// kept, each position stored in a `u64`.
    pub open spec fn region_model(self, skip_bars: int, loop_bars: int, align: Align) -> Region {
        let start = self.rounded(skip_bars) as u64;
        Region {
            start,
            end: match align {
                Align::Loop => (start + self.rounded(loop_bars) as u64) as u64,
                Align::Grid => self.rounded(skip_bars + loop_bars) as u64,
            },
        }
    }

    /// Whether [`Grid::region`] can place its two markers without leaving
    /// `i128` or `u64`.
    pub open spec fn region_fits(self, skip_bars: int, loop_bars: int, align: Align) -> bool {
        &&& self.fits(skip_bars)
        &&& align == Align::Loop ==> self.fits(loop_bars) && (self.rounded(skip_bars) as u64)
            + (self.rounded(loop_bars) as u64) <= u64::MAX
        &&& align == Align::Grid ==> skip_bars + loop_bars <= u64::MAX && self.fits(
            skip_bars + loop_bars,
        )
    }

    /// The sample position of bar line `bar`:
    /// `round(bar · SR · 60 · N · b · q / (p · D · a))`, half up.
    ///
    /// A single expression, never a running sum, so bar 10 000 is as accurate
    /// as bar 1. The position is stored in a `u64` as it comes.
    pub fn cut_sample(&self, bar: u64) -> (r: u64)
        requires
            self.fits(bar as int),
        ensures
            r == self.rounded(bar as int) as u64,
            self.rounded(bar as int) >= 0,
    {
        let e = self.exact_sample(bar);
        proof {
            lemma_round_nonnegative(e@);
        }
        let s = e.round_half_up();
        #[verifier::truncate]
        (s as u64)
    }

    /// How far `cut_sample(bar)` sits from the exact bar line: rounded minus
    /// exact, in samples.
    pub fn residual(&self, bar: u64) -> (r: Residual)
        requires
            self.fits(bar as int),
            sum_fits(
                (self.rounded(bar as int), 1),
                (-self.position(bar as int).0, self.position(bar as int).1),
            ),
        ensures
            r.error()@ == difference((self.rounded(bar as int), 1), self.position(bar as int)),
            r.rate() == self.sample_rate,
            r.exact()@ == self.position(bar as int),
    {
        let exact = self.exact_sample(bar);
        let rounded = Rational::from_int(exact.round_half_up());
        Residual { samples: rounded.minus(exact), sample_rate: self.sample_rate, exact_samples: exact }
    }

    /// The region to extract: skip `skip_bars` of warmup, keep `loop_bars`.
    ///
    /// Under [`Align::Loop`] the length is rounded on its own rather than
    /// inherited from the difference of two bar lines, because the length is
    /// what has to be exact; under [`Align::Grid`] both markers are bar lines.
    pub fn region(&self, skip_bars: u64, loop_bars: u64, align: Align) -> (r: Region)
        requires
            self.region_fits(skip_bars as int, loop_bars as int, align),
        ensures
            r == self.region_model(skip_bars as int, loop_bars as int, align),
    {
        let start = self.cut_sample(skip_bars);
        let end = match align {
            Align::Loop => {
                let e = self.exact_sample(loop_bars);
                let len = #[verifier::truncate]
                (e.round_half_up() as u64);
                start + len
            },
            Align::Grid => self.cut_sample(skip_bars + loop_bars),
        };
        Region { start, end }
    }

    /// Tests, before [`Grid::region`] is called, that both markers can be
    /// placed and the end fits a `u64`.
    pub fn can_cut(&self, skip_bars: u64, loop_bars: u64, align: Align) -> (r: bool)
        ensures
            r == self.region_fits(skip_bars as int, loop_bars as int, align),
    {
        if !self.can_place(skip_bars) {
            return false;
        }
        match align {
            Align::Loop => {
                if !self.can_place(loop_bars) {
                    return false;
                }
                let start = self.cut_sample(skip_bars);
                let len = self.cut_sample(loop_bars);
                start.checked_add(len).is_some()
            },
            Align::Grid => match skip_bars.checked_add(loop_bars) {
                Some(end) => self.can_place(end),
                None => false,
            },
        }
    }

    /// Tests, before [`Grid::residual`] is called, that bar line `bar` and
    /// its distance from the rounded sample can be computed.
    pub fn can_measure(&self, bar: u64) -> (r: bool)
        ensures
            r == (self.fits(bar as int) && sum_fits(
                (self.rounded(bar as int), 1),
                (-self.position(bar as int).0, self.position(bar as int).1),
            )),
    {
        if !self.can_place(bar) {
            return false;
        }
        let exact = self.exact_sample(bar);
        let rounded = Rational::from_int(exact.round_half_up());
        rounded.fits_plus(exact.negated())
    }

    /// Tests, before [`Grid::length_residual`] is called, that the region can
    /// be cut, ends where or after it starts, and its distance from the exact
    /// loop length can be computed.
    pub fn can_measure_length(&self, skip_bars: u64, loop_bars: u64, align: Align) -> (r: bool)
        ensures
            r == (self.region_fits(skip_bars as int, loop_bars as int, align) && self.fits(
                loop_bars as int,
            ) && self.region_model(skip_bars as int, loop_bars as int, align).start
                <= self.region_model(skip_bars as int, loop_bars as int, align).end && sum_fits(
                (
                    self.region_model(skip_bars as int, loop_bars as int, align).end
                        - self.region_model(skip_bars as int, loop_bars as int, align).start,
                    1,
                ),
                (-self.position(loop_bars as int).0, self.position(loop_bars as int).1),
            )),
    {
        if !self.can_cut(skip_bars, loop_bars, align) || !self.can_place(loop_bars) {
            return false;
        }
        let region = self.region(skip_bars, loop_bars, align);
        if region.start > region.end {
            return false;
        }
        let len = Rational::from_int((region.end - region.start) as i128);
        let exact = self.exact_sample(loop_bars);
        len.fits_plus(exact.negated())
    }

    /// Residual of the extracted *length* under `align` — what actually decides
    /// whether the loop drifts against a sequencer over many repeats.
    pub fn length_residual(&self, skip_bars: u64, loop_bars: u64, align: Align) -> (r: Residual)
        requires
            self.region_fits(skip_bars as int, loop_bars as int, align),
            self.fits(loop_bars as int),
            self.region_model(skip_bars as int, loop_bars as int, align).start <= self.region_model(
                skip_bars as int,
                loop_bars as int,
                align,
            ).end,
            sum_fits(
                (
                    self.region_model(skip_bars as int, loop_bars as int, align).end
                        - self.region_model(skip_bars as int, loop_bars as int, align).start,
                    1,
                ),
                (-self.position(loop_bars as int).0, self.position(loop_bars as int).1),
            ),
        ensures
            r.error()@ == difference(
                (
                    self.region_model(skip_bars as int, loop_bars as int, align).end
                        - self.region_model(skip_bars as int, loop_bars as int, align).start,
                    1,
                ),
                self.position(loop_bars as int),
            ),
            r.rate() == self.sample_rate,
            r.exact()@ == self.position(loop_bars as int),
    {
        let region = self.region(skip_bars, loop_bars, align);
        let exact = self.exact_sample(loop_bars);
        let len = Rational::from_int(region.len() as i128);
        Residual { samples: len.minus(exact), sample_rate: self.sample_rate, exact_samples: exact }
    }

    /// Sample count of `bars` bars after a varispeed of `ratio`:
    /// `round(bars · samples_per_bar / ratio)`, half up.
    ///
    /// **Not** `cut_length / ratio`. The cut length is already rounded, so
    /// dividing it rounds a second time and the result can miss the true value
    /// by a sample. Dividing the exact bar mathematics first keeps it to the one
    /// rounding:
    ///
    /// ```text
    /// wrong:  round( round(bars · samplesPerBar) / ratio )
    /// right:  round( bars · samplesPerBar / ratio )
    /// ```
    pub fn resampled_length(&self, bars: u64, ratio: Ratio) -> (r: u64)
        requires
            self.fits(bars as int),
            product_fits(self.position(bars as int), reciprocal(ratio@)),
        ensures
            r == round_half_up_of(quotient(self.position(bars as int), ratio@)) as u64,
            round_half_up_of(quotient(self.position(bars as int), ratio@)) >= 0,
    {
        let exact = self.exact_sample(bars);
        let v = ratio.as_rational();
        let q = exact.divided_by(v);
        proof {
            assert(exact@.0 * v@.1 >= 0 && exact@.1 * v@.0 > 0) by (nonlinear_arith)
                requires
                    exact@.0 >= 0,
                    exact@.1 > 0,
                    v@.0 > 0,
                    v@.1 > 0,
            ;
            lemma_positive_spelling(exact@.0 * v@.1, exact@.1 * v@.0);
            lemma_round_nonnegative(q@);
        }
        let scaled = q.round_half_up();
        let scaled = if scaled < 0 {
            0
        } else {
            scaled
        };
        #[verifier::truncate]
        (scaled as u64)
    }

    /// The grid a loop lands on after a varispeed of `ratio`.
    ///
    /// The sample rate does not change — this is resampling, not a rate
    /// conversion. What changes is the tempo, and with it every bar line.
    pub fn scaled(&self, ratio: Ratio) -> (r: Result<Grid, Error>)
        requires
            product_fits(self.bpm(), ratio@),
        ensures
            r matches Ok(g) && g.sig == self.sig && g.sample_rate == self.sample_rate && g.tempo@
                == (product(self.bpm(), ratio@), self.unit()),
    {
        match ratio.resulting_tempo(self.tempo) {
            Ok(tempo) => Ok(Grid { tempo, ..*self }),
            Err(e) => Err(e),
        }
    }

    /// True when `bars` bars are an exact whole number of samples at this
    /// tempo — the loop then needs no rounding at all.
    pub fn is_sample_exact(&self, bars: u64) -> (r: bool)
        requires
            self.fits(bars as int),
        ensures
            r == (self.position(bars as int).1 == 1),
    {
        self.exact_sample(bars).is_integer()
    }

    /// Tempo of the same material after a varispeed ratio is applied; none
    /// when the ratio is not strictly positive.
    pub fn scaled_tempo(&self, ratio: Rational) -> (r: Option<Tempo>)
        requires
            product_fits(self.bpm(), ratio@),
        ensures
            product(self.bpm(), ratio@).0 > 0 ==> (r matches Some(t) && t@ == (
                product(self.bpm(), ratio@),
                self.unit(),
            )),
            product(self.bpm(), ratio@).0 <= 0 ==> r is None,
    {
        match self.tempo.scaled(ratio) {
            Ok(t) => Some(t),
            Err(_) => None,
        }
    }

    /// The integer BPM values tried around the current tempo:
    /// `max(round(BPM) - window, 1)` to `round(BPM) + window`.
    pub open spec fn bpm_window(self, window: int) -> (int, int) {
        let c = round_half_up_of(self.bpm());
        (
            if c - window > 1 {
                c - window
            } else {
                1
            },
            c + window,
        )
    }

    /// At integer BPM `b`, with the same unit, meter and rate, `bars` bars
    /// are a whole number of samples.
    pub open spec fn exact_at(self, b: int, bars: int) -> bool {
        bar_position((b, 1), self.unit(), self.sig, self.sample_rate as int, bars).1 == 1
    }

    /// At integer BPM `b`, bar line `bars` can be placed without leaving
    /// `i128`.
    pub open spec fn fits_at(self, b: int, bars: int) -> bool {
        position_fits((b, 1), self.unit(), self.sig, self.sample_rate as int, bars)
    }

    /// `out` lists, ascending, exactly the BPM values from `lo` up to but not
    /// including `upto` that fit a `u32` and make `bars` bars sample-exact.
    pub open spec fn lists_exact_bpms(self, out: Seq<u32>, lo: int, upto: int, bars: int) -> bool {
        &&& forall|i: int|
            0 <= i < out.len() ==> lo <= #[trigger] out[i] < upto && self.exact_at(
                out[i] as int,
                bars,
            )
        &&& forall|i: int, j: int| 0 <= i < j < out.len() ==> out[i] < out[j]
        &&& forall|c: int|
            lo <= c < upto && c <= u32::MAX && #[trigger] self.exact_at(c, bars) ==> out.contains(
                c as u32,
            )
    }

    /// Whether [`Grid::sample_exact_bpms`] can list the window: its ends fit
    /// an `i128`, and at every BPM in it bar line `bars` can be placed.
    pub open spec fn can_list(self, bars: int, window: int) -> bool {
        &&& round_half_up_of(self.bpm()) + window <= i128::MAX
        &&& forall|b: int|
            self.bpm_window(window).0 <= b <= self.bpm_window(window).1 ==> #[trigger] self.fits_at(
                b,
                bars,
            )
    }

    /// Tests, before [`Grid::sample_exact_bpms`] is called, that the window
    /// can be listed without leaving `i128`.
    pub fn can_list_exact_bpms(&self, bars: u64, window: u32) -> (r: bool)
        ensures
            r == self.can_list(bars as int, window as int),
    {
        let centre = self.tempo.value().round_half_up();
        if centre > i128::MAX - (window as i128) {
            return false;
        }
        let lo: i128 = if centre - (window as i128) > 1 {
            centre - (window as i128)
        } else {
            1
        };
        let hi: i128 = centre + (window as i128);
        let unit = self.tempo.unit();
        if lo > hi {
            return true;
        }
        let mut b: i128 = lo;
        loop
            invariant_except_break
                lo <= b <= hi,
                forall|c: int| lo <= c < b ==> #[trigger] self.fits_at(c, bars as int),
            invariant
                lo == self.bpm_window(window as int).0,
                hi == self.bpm_window(window as int).1,
                lo >= 1,
                centre == round_half_up_of(self.bpm()),
                centre + window <= i128::MAX,
                unit.value() == self.unit(),
            ensures
                forall|c: int| lo <= c <= hi ==> #[trigger] self.fits_at(c, bars as int),
            decreases hi - b,
        {
            let tempo = match Tempo::new(Rational::from_int(b), unit) {
                Ok(t) => t,
                Err(_) => {
                    return false;
                },
            };
            let at = Grid { tempo, ..*self };
            if !at.can_place(bars) {
                proof {
                    assert(!self.fits_at(b as int, bars as int));
                }
                return false;
            }
            proof {
                assert(self.fits_at(b as int, bars as int));
            }
            if b == hi {
                break;
            }
            b = b + 1;
        }
        true
    }

    /// Integer BPM values within `window` of the current tempo at which `bars`
    /// bars come out sample-exact, ascending, so the caller can pick the
    /// nearest below and above.
    ///
    /// At 44.1 kHz over 8 bars of 4/4 the sample count is `84 672 000 / BPM`,
    /// so the exact tempos are the divisors of `2⁹ · 3³ · 5³ · 7²`.
    pub fn sample_exact_bpms(&self, bars: u64, window: u32) -> (r: Vec<u32>)
        requires
            self.can_list(bars as int, window as int),
        ensures
            self.lists_exact_bpms(
                r@,
                self.bpm_window(window as int).0,
                self.bpm_window(window as int).1 + 1,
                bars as int,
            ),
    {
        let centre = self.tempo.value().round_half_up();
        let lo: i128 = if centre - (window as i128) > 1 {
            centre - (window as i128)
        } else {
            1
        };
        let hi: i128 = centre + (window as i128);
        let unit = self.tempo.unit();
        let mut out: Vec<u32> = Vec::new();
        if lo > hi {
            return out;
        }
        let mut b: i128 = lo;
        loop
            invariant_except_break
                self.lists_exact_bpms(out@, lo as int, b as int, bars as int),
            invariant
                lo <= b <= hi,
                lo == self.bpm_window(window as int).0,
                hi == self.bpm_window(window as int).1,
                unit.value() == self.unit(),
                forall|c: int| lo <= c <= hi ==> #[trigger] self.fits_at(c, bars as int),
            ensures
                self.lists_exact_bpms(out@, lo as int, hi + 1, bars as int),
            decreases hi - b,
        {
            let ghost before = out@;
            if let Ok(tempo) = Tempo::new(Rational::from_int(b), unit) {
                let candidate = Grid { tempo, ..*self };
                assert(self.fits_at(b as int, bars as int));
                if candidate.is_sample_exact(bars) && b <= u32::MAX as i128 {
                    out.push(b as u32);
                    proof {
                        assert forall|c: int|
                            lo <= c < b + 1 && c <= u32::MAX && #[trigger] self.exact_at(
                                c,
                                bars as int,
                            ) implies out@.contains(c as u32) by {
                            if c < b {
                                let k = choose|k: int| 0 <= k < before.len() && before[k] == c as u32;
                                assert(out@[k] == c as u32);
                            } else {
                                assert(out@[out@.len() - 1] == c as u32);
                            }
                        }
                    }
                } else {
                    proof {
                        assert forall|c: int|
                            lo <= c < b + 1 && c <= u32::MAX && #[trigger] self.exact_at(
                                c,
                                bars as int,
                            ) implies out@.contains(c as u32) by {
                            if c == b {
                                assert(candidate.position(bars as int) == bar_position(
                                    (b as int, 1),
                                    self.unit(),
                                    self.sig,
                                    self.sample_rate as int,
                                    bars as int,
                                ));
                            }
                        }
                    }
                }
            }
            if b == hi {
                break;
            }
            b = b + 1;
        }
        out
    }
}

/// Every bar line rounds as its unreduced spelling `bar · num / den` does.
proof fn lemma_rounded_unreduced(g: Grid, bar: int)
    requires
        tempo_model(g.bpm(), g.unit()),
        g.sig.den > 0,
    ensures
        g.rounded(bar) == round_half_up_of(
            (
                bar * grid_numerator(g.bpm(), g.unit(), g.sig, g.sample_rate as int),
                grid_denominator(g.bpm(), g.unit(), g.sig),
            ),
        ),
        grid_denominator(g.bpm(), g.unit(), g.sig) > 0,
{
    lemma_grid_levels(g.bpm(), g.unit(), g.sig, g.sample_rate as int, bar);
    let n = bar * grid_numerator(g.bpm(), g.unit(), g.sig, g.sample_rate as int);
    let d = grid_denominator(g.bpm(), g.unit(), g.sig);
    lemma_canonical(n, d);
    let c = canonical(n, d);
    lemma_round_respects_value(c.0, c.1, n, d);
}

/// A cut point is never more than half a sample from the exact bar line, at
/// any distance from the start: `|cut − exact| <= 1/2`.
pub proof fn law_cut_within_half_a_sample(g: Grid, bar: int)
    requires
        tempo_model(g.bpm(), g.unit()),
        g.sig.den > 0,
    ensures
        (2 * g.rounded(bar) - 1) * g.position(bar).1 <= 2 * g.position(bar).0,
        2 * g.position(bar).0 < (2 * g.rounded(bar) + 1) * g.position(bar).1,
{
    lemma_grid_levels(g.bpm(), g.unit(), g.sig, g.sample_rate as int, bar);
    lemma_canonical(
        bar * grid_numerator(g.bpm(), g.unit(), g.sig, g.sample_rate as int),
        grid_denominator(g.bpm(), g.unit(), g.sig),
    );
    law_round_half_up_is_nearest(g.position(bar));
}

/// The two alignments start at the same sample, and the lengths they cut
/// differ by at most one sample: `|round(s + l) − round(s) − round(l)| <= 1`.
pub proof fn law_align_modes_differ_by_at_most_one_sample(g: Grid, skip_bars: int, loop_bars: int)
    requires
        tempo_model(g.bpm(), g.unit()),
        g.sig.den > 0,
    ensures
        g.region_model(skip_bars, loop_bars, Align::Loop).start == g.region_model(
            skip_bars,
            loop_bars,
            Align::Grid,
        ).start,
        -1 <= g.rounded(skip_bars + loop_bars) - g.rounded(skip_bars) - g.rounded(loop_bars) <= 1,
{
    let n = grid_numerator(g.bpm(), g.unit(), g.sig, g.sample_rate as int);
    let d = grid_denominator(g.bpm(), g.unit(), g.sig);
    lemma_rounded_unreduced(g, skip_bars);
    lemma_rounded_unreduced(g, loop_bars);
    lemma_rounded_unreduced(g, skip_bars + loop_bars);
    let rs = g.rounded(skip_bars);
    let rl = g.rounded(loop_bars);
    let rt = g.rounded(skip_bars + loop_bars);
    law_round_half_up_is_nearest((skip_bars * n, d));
    law_round_half_up_is_nearest((loop_bars * n, d));
    law_round_half_up_is_nearest(((skip_bars + loop_bars) * n, d));
    assert((skip_bars + loop_bars) * n == skip_bars * n + loop_bars * n) by (nonlinear_arith);
    assert(-1 <= rt - rs - rl <= 1) by (nonlinear_arith)
        requires
            (2 * rs - 1) * d <= 2 * (skip_bars * n),
            2 * (skip_bars * n) < (2 * rs + 1) * d,
            (2 * rl - 1) * d <= 2 * (loop_bars * n),
            2 * (loop_bars * n) < (2 * rl + 1) * d,
            (2 * rt - 1) * d <= 2 * ((skip_bars + loop_bars) * n),
            2 * ((skip_bars + loop_bars) * n) < (2 * rt + 1) * d,
            (skip_bars + loop_bars) * n == skip_bars * n + loop_bars * n,
            d > 0,
    ;
}

/// Later bar lines never cut earlier: `a <= b` gives `round(a) <= round(b)`.
pub proof fn law_cut_points_are_ordered(g: Grid, a: int, b: int)
    requires
        tempo_model(g.bpm(), g.unit()),
        g.sig.den > 0,
        0 <= a <= b,
    ensures
        g.rounded(a) <= g.rounded(b),
{
    let n = grid_numerator(g.bpm(), g.unit(), g.sig, g.sample_rate as int);
    let d = grid_denominator(g.bpm(), g.unit(), g.sig);
    lemma_rounded_unreduced(g, a);
    lemma_rounded_unreduced(g, b);
    lemma_grid_levels(g.bpm(), g.unit(), g.sig, g.sample_rate as int, 1);
    let ra = g.rounded(a);
    let rb = g.rounded(b);
    law_round_half_up_is_nearest((a * n, d));
    law_round_half_up_is_nearest((b * n, d));
    assert(n >= 0) by (nonlinear_arith)
        requires
            n * 1 >= 0,
    ;
    assert(a * n <= b * n) by (nonlinear_arith)
        requires
            a <= b,
            n >= 0,
    ;
    assert(ra <= rb) by (nonlinear_arith)
        requires
            (2 * ra - 1) * d <= 2 * (a * n),
            2 * (b * n) < (2 * rb + 1) * d,
            a * n <= b * n,
            d > 0,
    ;
}

/// A bar line that falls on a whole sample is cut exactly there, with no
/// residual.
pub proof fn law_exact_positions_need_no_rounding(g: Grid, bar: int)
    requires
        tempo_model(g.bpm(), g.unit()),
        g.sig.den > 0,
        g.position(bar).1 == 1,
    ensures
        g.rounded(bar) == g.position(bar).0,
        difference((g.rounded(bar), 1), g.position(bar)) == (0int, 1int),
{
    let p = g.position(bar);
    law_round_half_up_is_nearest(p);
    lemma_canonical(g.rounded(bar) * 1 - p.0 * 1, 1int * 1int);
}

/// A bar is a beat counted as many times as the unit goes into the meter's
/// share of a whole note: bar samples = beat samples · (N/D) / unit. Counting
/// 6/8 in dotted quarters makes a bar two beats long.
pub proof fn law_bar_is_beats_of_the_unit(bpm: (int, int), unit: (int, int), sig: TimeSignature, sr: int)
    requires
        tempo_model(bpm, unit),
        sig.den > 0,
    ensures
        bar_samples(bpm, unit, sig, sr) == quotient(
            product(canonical(60 * bpm.1 * sr, bpm.0), canonical(sig.num as int, sig.den as int)),
            unit,
        ),
{
    let a = 60 * bpm.1 * sr;
    let n = sig.num as int;
    let d = sig.den as int;
    lemma_product_of_spellings(a, bpm.0, n, d);
    assert(bpm.0 * d != 0) by (nonlinear_arith)
        requires
            bpm.0 > 0,
            d > 0,
    ;
    lemma_canonical_of_canonical(unit);
    lemma_quotient_of_spellings(a * n, bpm.0 * d, unit.0, unit.1);
    assert((a * n) * unit.1 * grid_denominator(bpm, unit, sig) == grid_numerator(bpm, unit, sig, sr)
        * ((bpm.0 * d) * unit.0)) by (nonlinear_arith)
        requires
            a == 60 * bpm.1 * sr,
            n == sig.num,
            d == sig.den,
    ;
    assert(grid_denominator(bpm, unit, sig) != 0 && (bpm.0 * d) * unit.0 != 0) by (nonlinear_arith)
        requires
            bpm.0 > 0,
            d > 0,
            unit.0 > 0,
            d == sig.den,
    ;
    lemma_canonical_respects_value(
        grid_numerator(bpm, unit, sig, sr),
        grid_denominator(bpm, unit, sig),
        (a * n) * unit.1,
        (bpm.0 * d) * unit.0,
    );
}

/// What the two alignments cut, while every marker fits a `u64`: both start
/// on the rounded cut-in; loop priority keeps the rounded loop length, the
/// same whatever is skipped; grid priority ends on the rounded bar line after
/// the loop; and the two lengths differ by at most one sample.
pub proof fn law_region_lengths(g: Grid, skip_bars: int, loop_bars: int)
    requires
        tempo_model(g.bpm(), g.unit()),
        g.sig.den > 0,
        skip_bars >= 0,
        loop_bars >= 0,
        g.rounded(skip_bars) + g.rounded(loop_bars) <= u64::MAX,
        g.rounded(skip_bars + loop_bars) <= u64::MAX,
    ensures
        g.region_model(skip_bars, loop_bars, Align::Loop).start == g.rounded(skip_bars),
        g.region_model(skip_bars, loop_bars, Align::Grid).start == g.rounded(skip_bars),
        g.region_model(skip_bars, loop_bars, Align::Loop).end - g.region_model(
            skip_bars,
            loop_bars,
            Align::Loop,
        ).start == g.rounded(loop_bars),
        g.region_model(skip_bars, loop_bars, Align::Grid).end == g.rounded(skip_bars + loop_bars),
        -1 <= (g.region_model(skip_bars, loop_bars, Align::Grid).end - g.region_model(
            skip_bars,
            loop_bars,
            Align::Grid,
        ).start) - (g.region_model(skip_bars, loop_bars, Align::Loop).end - g.region_model(
            skip_bars,
            loop_bars,
            Align::Loop,
        ).start) <= 1,
{
    law_cut_points_are_ordered(g, 0, skip_bars);
    law_cut_points_are_ordered(g, 0, loop_bars);
    law_cut_points_are_ordered(g, 0, skip_bars + loop_bars);
    lemma_rounded_unreduced(g, 0);
    law_align_modes_differ_by_at_most_one_sample(g, skip_bars, loop_bars);
    let d = grid_denominator(g.bpm(), g.unit(), g.sig);
    assert(round_half_up_of((0 * grid_numerator(g.bpm(), g.unit(), g.sig, g.sample_rate as int), d))
        == 0) by {
        assert(0 * grid_numerator(g.bpm(), g.unit(), g.sig, g.sample_rate as int) == 0);
        assert((2 * 0 + d) / (2 * d) == 0) by (nonlinear_arith)
            requires
                d > 0,
        ;
    }
}

/// A loop that is a whole number of samples long is cut exactly that long,
/// under either alignment, so its length leaves no residual: a bar line
/// shifted by a whole number of samples rounds shifted by exactly that.
pub proof fn law_exact_lengths_leave_no_residual(
    g: Grid,
    skip_bars: int,
    loop_bars: int,
    align: Align,
)
    requires
        tempo_model(g.bpm(), g.unit()),
        g.sig.den > 0,
        skip_bars >= 0,
        loop_bars >= 0,
        g.rounded(skip_bars) + g.rounded(loop_bars) <= u64::MAX,
        g.rounded(skip_bars + loop_bars) <= u64::MAX,
        g.position(loop_bars).1 == 1,
    ensures
        g.region_model(skip_bars, loop_bars, align).end - g.region_model(
            skip_bars,
            loop_bars,
            align,
        ).start == g.position(loop_bars).0,
        difference(
            (
                g.region_model(skip_bars, loop_bars, align).end - g.region_model(
                    skip_bars,
                    loop_bars,
                    align,
                ).start,
                1,
            ),
            g.position(loop_bars),
        ) == (0int, 1int),
{
    law_region_lengths(g, skip_bars, loop_bars);
    law_exact_positions_need_no_rounding(g, loop_bars);
    let n = grid_numerator(g.bpm(), g.unit(), g.sig, g.sample_rate as int);
    let d = grid_denominator(g.bpm(), g.unit(), g.sig);
    let k = g.position(loop_bars).0;
    lemma_rounded_unreduced(g, skip_bars);
    lemma_rounded_unreduced(g, skip_bars + loop_bars);
    lemma_canonical(loop_bars * n, d);
    assert(loop_bars * n == k * d);
    let rs = g.rounded(skip_bars);
    let rt = g.rounded(skip_bars + loop_bars);
    law_round_half_up_is_nearest((skip_bars * n, d));
    law_round_half_up_is_nearest(((skip_bars + loop_bars) * n, d));
    assert((skip_bars + loop_bars) * n == skip_bars * n + loop_bars * n) by (nonlinear_arith);
    assert(rt == rs + k) by (nonlinear_arith)
        requires
            (2 * rs - 1) * d <= 2 * (skip_bars * n),
            2 * (skip_bars * n) < (2 * rs + 1) * d,
            (2 * rt - 1) * d <= 2 * ((skip_bars + loop_bars) * n),
            2 * ((skip_bars + loop_bars) * n) < (2 * rt + 1) * d,
            (skip_bars + loop_bars) * n == skip_bars * n + loop_bars * n,
            loop_bars * n == k * d,
            d > 0,
    ;
    lemma_canonical(k * 1 - k * 1, 1int * 1int);
}

/// Whether the integer tempo `b` is a valid tempo strictly below `bpm`.
pub open spec fn exact_below(b: int, bpm: (int, int)) -> bool {
    b > 0 && value_lt((b, 1), bpm)
}

/// Whether the integer tempo `b` is a valid tempo strictly above `bpm`.
pub open spec fn exact_above(b: int, bpm: (int, int)) -> bool {
    b > 0 && value_lt(bpm, (b, 1))
}

/// Of the integer tempos in `exact`, the highest strictly below `bpm` and the
/// lowest strictly above it: the nearest sample-exact choices either side,
/// which a report offers when the current tempo is not one of them.
pub fn nearest_either_side(exact: &Vec<u32>, bpm: Rational) -> (r: (Option<u32>, Option<u32>))
    requires
        bpm.wf(),
    ensures
        match r.0 {
            Some(b) => exact@.contains(b) && exact_below(b as int, bpm@) && forall|i: int|
                0 <= i < exact.len() && exact_below(#[trigger] exact@[i] as int, bpm@) ==> exact@[i]
                    <= b,
            None => forall|i: int| 0 <= i < exact.len() ==> !exact_below(#[trigger] exact@[i] as int, bpm@),
        },
        match r.1 {
            Some(b) => exact@.contains(b) && exact_above(b as int, bpm@) && forall|i: int|
                0 <= i < exact.len() && exact_above(#[trigger] exact@[i] as int, bpm@) ==> b
                    <= exact@[i],
            None => forall|i: int| 0 <= i < exact.len() ==> !exact_above(#[trigger] exact@[i] as int, bpm@),
        },
{
    let mut below: Option<u32> = None;
    let mut above: Option<u32> = None;
    let mut i: usize = 0;
    while i < exact.len()
        invariant
            i <= exact.len(),
            bpm.wf(),
            match below {
                Some(b) => exact@.contains(b) && exact_below(b as int, bpm@) && forall|j: int|
                    0 <= j < i && exact_below(#[trigger] exact@[j] as int, bpm@) ==> exact@[j] <= b,
                None => forall|j: int| 0 <= j < i ==> !exact_below(#[trigger] exact@[j] as int, bpm@),
            },
            match above {
                Some(b) => exact@.contains(b) && exact_above(b as int, bpm@) && forall|j: int|
                    0 <= j < i && exact_above(#[trigger] exact@[j] as int, bpm@) ==> b <= exact@[j],
                None => forall|j: int| 0 <= j < i ==> !exact_above(#[trigger] exact@[j] as int, bpm@),
            },
        decreases exact.len() - i,
    {
        let b = exact[i];
        if b > 0 {
            let t = Rational::from_int(b as i128);
            if t.is_less_than(bpm) {
                let better = match below {
                    Some(cur) => b > cur,
                    None => true,
                };
                if better {
                    below = Some(b);
                }
            } else if bpm.is_less_than(t) {
                let better = match above {
                    Some(cur) => b < cur,
                    None => true,
                };
                if better {
                    above = Some(b);
                }
            }
        }
        proof {
            assert(exact@[i as int] == b);
        }
        i = i + 1;
    }
    (below, above)
}

} // verus!
