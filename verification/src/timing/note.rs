//! Note values, and how long each one is.
//!
//! What a sixteenth is in seconds, in samples, and as a share of the bar.
//! Musicians reach for this to set a delay time, and a delay set from a
//! rounded number is a delay that drifts out of the grid over a long loop.
//!
//! A note length is a rational number of samples, computed the same way a bar
//! length is:
//!
//! ```text
//! seconds(w) = (60 / BPM) · w / U
//! ```
//!
//! where `w` is the note as a fraction of a whole note and `U` is the BPM unit.
//! Dots multiply `w` by 3/2 and triplets by 2/3, both exact. Nothing here
//! rounds, which is the same rule the cut points follow.

use crate::rational::{
    canonical, lemma_canonical, lemma_canonical_of_canonical, lemma_canonical_respects_value,
    lemma_product_fits_small, lemma_quotient_of_spellings, lemma_unit_fraction, product,
    product_fits, quotient, reciprocal, Rational,
};
use crate::text::{decimal, push_char, push_decimal, push_text};
use super::grid::{
    bar_seconds, seconds_fit, tempo_model, whole_note_chain_fits, whole_note_seconds, Grid,
};
use vstd::prelude::*;

verus! {

/// Straight, dotted, or triplet.
#[derive(Copy, Clone, Debug, PartialEq, Eq, Structural)]
pub enum Flavour {
    Straight,
    /// Half again as long: `3/2`.
    Dotted,
    /// Two thirds as long: three in the space of two.
    Triplet,
}

/// The factor a flavour applies to the plain note length.
pub open spec fn flavour_factor(f: Flavour) -> (int, int) {
    match f {
        Flavour::Straight => (1, 1),
        Flavour::Dotted => (3, 2),
        Flavour::Triplet => (2, 3),
    }
}

impl Default for Flavour {
    fn default() -> (f: Flavour)
        ensures
            f == Flavour::Straight,
    {
        Flavour::Straight
    }
}

impl Flavour {
    /// The factor applied to the plain note length.
    pub fn factor(self) -> (r: Rational)
        ensures
            r.wf(),
            r@ == flavour_factor(self),
    {
        match self {
            Flavour::Straight => Rational::from_int(1),
            Flavour::Dotted => {
                proof {
                    reveal_with_fuel(crate::arith::spec_gcd, 3);
                    lemma_canonical_of_canonical((3, 2));
                }
                Rational::new(3, 2)
            },
            Flavour::Triplet => {
                proof {
                    reveal_with_fuel(crate::arith::spec_gcd, 4);
                    lemma_canonical_of_canonical((2, 3));
                }
                Rational::new(2, 3)
            },
        }
    }

    /// How the flavour is written after the denominator: nothing, `.`, `T`.
    pub fn suffix(self) -> (r: &'static str)
        ensures
            self == Flavour::Straight ==> r@ == ""@,
            self == Flavour::Dotted ==> r@ == "."@,
            self == Flavour::Triplet ==> r@ == "T"@,
    {
        match self {
            Flavour::Straight => "",
            Flavour::Dotted => ".",
            Flavour::Triplet => "T",
        }
    }
}

/// One note value: a denominator and a flavour. `1/8.` is a dotted eighth.
#[derive(Copy, Clone, Debug, PartialEq, Eq, Structural)]
pub struct NoteValue {
    /// The denominator: 4 for a quarter, 16 for a sixteenth.
    pub denominator: u32,
    pub flavour: Flavour,
}

/// A note value as a fraction of a whole note: `1/d` times the flavour's
/// factor, with a zero denominator read as one.
pub open spec fn note_whole_notes(v: NoteValue) -> (int, int) {
    let d: int = if v.denominator >= 1 {
        v.denominator as int
    } else {
        1
    };
    canonical(flavour_factor(v.flavour).0, d * flavour_factor(v.flavour).1)
}

/// How a note value is labelled: `1/4`, `1/8.`, `1/16T`.
pub open spec fn note_label(v: NoteValue) -> Seq<char> {
    seq!['1', '/'] + decimal(v.denominator as nat) + (match v.flavour {
        Flavour::Straight => ""@,
        Flavour::Dotted => "."@,
        Flavour::Triplet => "T"@,
    })
}

impl NoteValue {
    pub fn new(denominator: u32, flavour: Flavour) -> (r: NoteValue)
        ensures
            r == (NoteValue { denominator, flavour }),
    {
        NoteValue { denominator, flavour }
    }

    /// The value as a fraction of a whole note.
    pub fn whole_notes(self) -> (r: Rational)
        ensures
            r.wf(),
            r@ == note_whole_notes(self),
    {
        let d: u32 = if self.denominator >= 1 {
            self.denominator
        } else {
            1
        };
        let f = self.flavour.factor();
        proof {
            lemma_unit_fraction(d as int);
            lemma_product_fits_small((1, d as int), f@, 0x1_0000_0000);
        }
        Rational::new(1, d as i128).times(f)
    }

    /// `1/4`, `1/8.`, `1/16T`.
    pub fn label(self) -> (s: String)
        ensures
            s@ == note_label(self),
    {
        let mut s = String::new();
        push_char(&mut s, '1');
        push_char(&mut s, '/');
        push_decimal(&mut s, self.denominator as u128);
        let suffix = self.flavour.suffix();
        push_text(&mut s, suffix);
        proof {
            assert(s@ =~= note_label(self));
        }
        s
    }
}

/// A note value measured against a particular grid.
#[derive(Copy, Clone, Debug)]
pub struct NoteLength {
    pub value: NoteValue,
    /// Exact, generally not an integer.
    pub samples: Rational,
    pub seconds: Rational,
    /// The share of one bar this note occupies, as a fraction.
    pub per_bar: Rational,
}

impl NoteLength {
    /// Whether this note lands on a whole number of samples.
    ///
    /// A delay time that is sample-exact stays locked to the grid however long
    /// the loop runs, and one that is not accumulates error.
    pub fn is_sample_exact(&self) -> (r: bool)
        ensures
            r == (self.samples@.1 == 1),
    {
        self.samples.den() == 1
    }
}

/// How long note value `v` lasts on `g`, in seconds.
pub open spec fn note_seconds(g: Grid, v: NoteValue) -> (int, int) {
    whole_note_seconds(g.bpm(), g.unit(), note_whole_notes(v))
}

/// How long note value `v` lasts on `g`, in samples.
pub open spec fn note_samples(g: Grid, v: NoteValue) -> (int, int) {
    product(note_seconds(g, v), (g.sample_rate as int, 1))
}

/// The share of one bar of `g` that note value `v` fills: the note over the
/// bar, both as fractions of a whole note — whatever the tempo.
pub open spec fn note_share(g: Grid, v: NoteValue) -> (int, int) {
    canonical(note_whole_notes(v).0 * g.sig.den, note_whole_notes(v).1 * g.sig.num)
}

/// The length of `v` on `g` can be computed without leaving `i128`, and the
/// bar it is measured against is not empty.
pub open spec fn length_fits(g: Grid, v: NoteValue) -> bool {
    &&& g.sig.num > 0
    &&& seconds_fit(g.bpm(), g.unit(), g.sig)
    &&& whole_note_chain_fits(g.bpm(), g.unit(), note_whole_notes(v))
    &&& product_fits(note_seconds(g, v), (g.sample_rate as int, 1))
    &&& product_fits(note_seconds(g, v), reciprocal(bar_seconds(g.bpm(), g.unit(), g.sig)))
}

/// A note's share of the bar does not depend on the tempo.
proof fn lemma_share(g: Grid, v: NoteValue)
    requires
        tempo_model(g.bpm(), g.unit()),
        g.sig.num > 0,
        g.sig.den > 0,
        note_whole_notes(v).1 > 0,
    ensures
        quotient(note_seconds(g, v), bar_seconds(g.bpm(), g.unit(), g.sig)) == note_share(g, v),
        bar_seconds(g.bpm(), g.unit(), g.sig).0 > 0,
{
    let (p, q) = g.bpm();
    let (a, b) = g.unit();
    let (w0, w1) = note_whole_notes(v);
    let n = g.sig.num as int;
    let d = g.sig.den as int;
    let k = 60 * b * q;
    let m = p * a;
    let n1 = 60 * w0 * b * q;
    let d1 = p * w1 * a;
    let n2 = 60 * n * b * q;
    let d2 = p * d * a;
    assert(k > 0 && m > 0 && d1 != 0 && d2 != 0 && n2 > 0 && w1 * n != 0) by (nonlinear_arith)
        requires
            k == 60 * b * q,
            m == p * a,
            d1 == p * w1 * a,
            d2 == p * d * a,
            n2 == 60 * n * b * q,
            p > 0,
            q > 0,
            a > 0,
            b > 0,
            w1 > 0,
            n > 0,
            d > 0,
    ;
    lemma_quotient_of_spellings(n1, d1, n2, d2);
    let kk = 60 * b * q * p * a;
    assert(n1 * d2 == (w0 * d) * kk) by (nonlinear_arith)
        requires
            n1 == 60 * w0 * b * q,
            d2 == p * d * a,
            kk == 60 * b * q * p * a,
    ;
    assert(d1 * n2 == (w1 * n) * kk) by (nonlinear_arith)
        requires
            d1 == p * w1 * a,
            n2 == 60 * n * b * q,
            kk == 60 * b * q * p * a,
    ;
    assert(((w0 * d) * kk) * (w1 * n) == (w0 * d) * ((w1 * n) * kk)) by (nonlinear_arith);
    assert(d1 * n2 != 0) by (nonlinear_arith)
        requires
            d1 != 0,
            n2 > 0,
    ;
    lemma_canonical_respects_value(n1 * d2, d1 * n2, w0 * d, w1 * n);
    lemma_canonical(n2, d2);
    assert(n2 * d2 > 0) by (nonlinear_arith)
        requires
            n2 > 0,
            d2 > 0,
    ;
    assert(canonical(n2, d2).0 > 0) by (nonlinear_arith)
        requires
            canonical(n2, d2).0 * d2 == n2 * canonical(n2, d2).1,
            canonical(n2, d2).1 > 0,
            n2 > 0,
            d2 != 0,
            d2 > 0,
    ;
}

/// The length of one note value on `grid`: in seconds, in samples, and as a
/// share of the bar.
pub fn length(grid: &Grid, value: NoteValue) -> (r: NoteLength)
    requires
        length_fits(*grid, value),
    ensures
        r.value == value,
        r.seconds@ == note_seconds(*grid, value),
        r.samples@ == note_samples(*grid, value),
        r.per_bar@ == note_share(*grid, value),
{
    let w = value.whole_notes();
    let b = grid.tempo.value();
    let u = grid.tempo.unit().whole_notes();
    proof {
        lemma_canonical(1, 1);
        lemma_canonical(note_whole_notes(value).0, 1);
        lemma_share(*grid, value);
        crate::rational::lemma_gcd_one(grid.sample_rate as nat);
        lemma_canonical_of_canonical((grid.sample_rate as int, 1));
    }
    let seconds = grid.seconds_per_whole_notes(w);
    let bar = grid.seconds_per_bar();
    NoteLength {
        value,
        samples: seconds.times(Rational::from_int(grid.sample_rate as i128)),
        seconds,
        per_bar: seconds.divided_by(bar),
    }
}

/// The denominators the table covers: whole note down to a thirty-second.
pub const DENOMINATORS: [u32; 6] = [1, 2, 4, 8, 16, 32];

/// The note value in row `i` of the table: straight, then dotted, then
/// triplet, each from the whole note down.
pub open spec fn table_value(i: int) -> NoteValue {
    NoteValue {
        denominator: DENOMINATORS[i % 6],
        flavour: if i < 6 {
            Flavour::Straight
        } else if i < 12 {
            Flavour::Dotted
        } else {
            Flavour::Triplet
        },
    }
}

/// The whole table, straight then dotted then triplet.
///
/// Ordered by flavour rather than interleaved, because the three are read as
/// three columns of a chart and not as eighteen unrelated rows.
pub fn table(grid: &Grid) -> (r: Vec<NoteLength>)
    requires
        forall|i: int| 0 <= i < 18 ==> #[trigger] length_fits(*grid, table_value(i)),
    ensures
        r.len() == 18,
        forall|i: int|
            0 <= i < 18 ==> r[i].value == table_value(i) && r[i].seconds@ == note_seconds(
                *grid,
                table_value(i),
            ) && r[i].samples@ == note_samples(*grid, table_value(i)) && r[i].per_bar@
                == note_share(*grid, table_value(i)),
{
    let mut out: Vec<NoteLength> = Vec::with_capacity(18);
    let mut row: usize = 0;
    while row < 18
        invariant
            row <= 18,
            out.len() == row,
            forall|i: int| 0 <= i < 18 ==> #[trigger] length_fits(*grid, table_value(i)),
            forall|i: int|
                0 <= i < row ==> out[i].value == table_value(i) && out[i].seconds@ == note_seconds(
                    *grid,
                    table_value(i),
                ) && out[i].samples@ == note_samples(*grid, table_value(i)) && out[i].per_bar@
                    == note_share(*grid, table_value(i)),
        decreases 18 - row,
    {
        let flavour = if row < 6 {
            Flavour::Straight
        } else if row < 12 {
            Flavour::Dotted
        } else {
            Flavour::Triplet
        };
        let value = NoteValue::new(DENOMINATORS[row % 6], flavour);
        assert(value == table_value(row as int));
        out.push(length(grid, value));
        row = row + 1;
    }
    out
}

} // verus!
