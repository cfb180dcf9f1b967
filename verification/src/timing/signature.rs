//! Meter, and the note value a BPM counts.

use crate::error::Error;
use crate::rational::{canonical, lemma_canonical, lemma_canonical_of_canonical, Rational};
use crate::text::{
    chars_of, decimal, find_char, first_index, parse_u32, push_char, push_decimal, trim,
    trim_range, u32_text,
};
use vstd::prelude::*;

verus! {

/// `a/b`, the way the two numbers are written in a message.
pub open spec fn pair_text(a: nat, b: nat) -> Seq<char> {
    decimal(a) + seq!['/'] + decimal(b)
}

/// The two numbers of `N/D` as `str::parse::<u32>` reads them, each side
/// trimmed, split at the first `/`.
pub open spec fn u32_pair_text(s: Seq<char>) -> Option<(u32, u32)> {
    let t = trim(s);
    match first_index(t, '/') {
        None => None,
        Some(i) => match (u32_text(trim(t.take(i))), u32_text(trim(t.skip(i + 1)))) {
            (Some(n), Some(d)) => Some((n, d)),
            _ => None,
        },
    }
}

/// Appends `a/b`.
fn push_pair(s: &mut String, a: u32, b: u32)
    ensures
        final(s)@ == old(s)@ + pair_text(a as nat, b as nat),
{
    push_decimal(s, a as u128);
    push_char(s, '/');
    push_decimal(s, b as u128);
    proof {
        assert(s@ =~= old(s)@ + pair_text(a as nat, b as nat));
    }
}

/// The two numbers of `N/D` in `s`.
fn read_u32_pair(s: &str) -> (r: Option<(u32, u32)>)
    ensures
        r == u32_pair_text(s@),
{
    let v = chars_of(s);
    let (a, b) = trim_range(&v, 0, v.len());
    let ghost t = v@.subrange(a as int, b as int);
    proof {
        assert(v@.subrange(0, v.len() as int) =~= s@);
    }
    match find_char(&v, a, b, '/') {
        None => None,
        Some(i) => {
            proof {
                assert(t.take(i - a) =~= v@.subrange(a as int, i as int));
                assert(t.skip(i - a + 1) =~= v@.subrange(i + 1, b as int));
            }
            let (n0, n1) = trim_range(&v, a, i);
            let (d0, d1) = trim_range(&v, i + 1, b);
            let pn = parse_u32(&v, n0, n1);
            let pd = parse_u32(&v, d0, d1);
            proof {
                assert(t == trim(s@));
                assert(first_index(t, '/') == Some(i - a));
                assert(pn == u32_text(trim(t.take(i - a))));
                assert(pd == u32_text(trim(t.skip(i - a + 1))));
            }
            match (pn, pd) {
                (Some(n), Some(d)) => Some((n, d)),
                _ => None,
            }
        },
    }
}

/// A time signature `N/D` — N beats of a 1/D note per bar.
#[derive(Copy, Clone, Debug, PartialEq, Eq, Hash, Structural)]
pub struct TimeSignature {
    pub num: u32,
    pub den: u32,
}

impl TimeSignature {
    /// Four four, the default.
    pub fn four_four() -> (t: TimeSignature)
        ensures
            t == (TimeSignature { num: 4, den: 4 }),
    {
        TimeSignature { num: 4, den: 4 }
    }

    /// `N/D` with both numbers positive.
    pub fn new(num: u32, den: u32) -> (r: Result<TimeSignature, Error>)
        ensures
            num > 0 && den > 0 ==> r == Ok::<TimeSignature, Error>(
                TimeSignature { num, den },
            ),
            !(num > 0 && den > 0) ==> (r matches Err(Error::TimeSignature(text)) && text@
                == pair_text(num as nat, den as nat)),
    {
        if num == 0 || den == 0 {
            let mut text = String::new();
            push_pair(&mut text, num, den);
            proof {
                assert(text@ =~= pair_text(num as nat, den as nat));
            }
            return Err(Error::TimeSignature(text));
        }
        Ok(TimeSignature { num, den })
    }

    /// Bar length as a fraction of a whole note: `N/D`, reduced.
    ///
    /// A zero denominator names no bar length at all.
    pub fn whole_notes_per_bar(self) -> (r: Rational)
        requires
            self.den != 0,
        ensures
            r.wf(),
            r@ == canonical(self.num as int, self.den as int),
    {
        Rational::new(self.num as i128, self.den as i128)
    }

    /// Parses `N/D`: whitespace around either number is ignored.
    ///
    /// Text that is not two numbers is refused as written; two numbers of
    /// which one is zero are refused as read.
    pub fn parse(s: &str) -> (r: Result<TimeSignature, Error>)
        ensures
            signature_read(s@, r),
    {
        match read_u32_pair(s) {
            None => Err(Error::TimeSignature(s.to_owned())),
            Some((n, d)) => TimeSignature::new(n, d),
        }
    }

    /// `N/D`.
    pub fn to_string(&self) -> (s: String)
        ensures
            s@ == pair_text(self.num as nat, self.den as nat),
    {
        let mut s = String::new();
        push_pair(&mut s, self.num, self.den);
        proof {
            assert(s@ =~= pair_text(self.num as nat, self.den as nat));
        }
        s
    }
}

impl Default for TimeSignature {
    fn default() -> (t: TimeSignature)
        ensures
            t == (TimeSignature { num: 4, den: 4 }),
    {
        TimeSignature::four_four()
    }
}

impl core::str::FromStr for TimeSignature {
    type Err = Error;

    /// [`TimeSignature::parse`].
    fn from_str(s: &str) -> (r: Result<TimeSignature, Error>)
        ensures
            signature_read(s@, r),
    {
        TimeSignature::parse(s)
    }
}

/// What [`TimeSignature::parse`] gives for text `s`: the signature when it
/// spells two positive numbers; the text as written when it spells no pair;
/// the pair as read when one of them is zero.
pub open spec fn signature_read(s: Seq<char>, r: Result<TimeSignature, Error>) -> bool {
    match u32_pair_text(s) {
        None => r matches Err(Error::TimeSignature(text)) && text@ == s,
        Some((n, d)) => if n > 0 && d > 0 {
            r == Ok::<TimeSignature, Error>(TimeSignature { num: n, den: d })
        } else {
            r matches Err(Error::TimeSignature(text)) && text@ == pair_text(n as nat, d as nat)
        },
    }
}

/// The signature text `s` names, when it names one.
pub open spec fn signature_named(s: Seq<char>) -> Option<TimeSignature> {
    match u32_pair_text(s) {
        Some((n, d)) => if n > 0 && d > 0 {
            Some(TimeSignature { num: n, den: d })
        } else {
            None
        },
        None => None,
    }
}

/// What [`BpmUnit::parse`] gives for text `s`: the unit `a/b` when it spells
/// two positive numbers; the text as written when it spells no pair; the pair
/// as read when one of them is zero.
pub open spec fn unit_read(s: Seq<char>, r: Result<BpmUnit, Error>) -> bool {
    match u32_pair_text(s) {
        None => r matches Err(Error::BpmUnit(text)) && text@ == s,
        Some((a, b)) => if a > 0 && b > 0 {
            r matches Ok(u) && u.value() == canonical(a as int, b as int)
        } else {
            r matches Err(Error::BpmUnit(text)) && text@ == pair_text(a as nat, b as nat)
        },
    }
}

/// The unit text `s` names, as a reduced fraction of a whole note, when it
/// names one.
pub open spec fn unit_named(s: Seq<char>) -> Option<(int, int)> {
    match u32_pair_text(s) {
        Some((a, b)) => if a > 0 && b > 0 {
            Some(canonical(a as int, b as int))
        } else {
            None
        },
        None => None,
    }
}

/// The note value one BPM beat refers to, as a fraction of a whole note.
///
/// DAW convention is the quarter note (1/4), but 6/8 is commonly counted in
/// dotted quarters (3/8) — two beats per bar rather than six. Carrying this as
/// an explicit parameter is what makes the bar math correct for any meter.
#[derive(Copy, Clone, Debug, PartialEq, Eq, Hash, Structural)]
pub struct BpmUnit(Rational);

impl BpmUnit {
    /// A unit is a positive fraction of a whole note.
    #[verifier::type_invariant]
    pub closed spec fn inv(self) -> bool {
        self.0@.0 > 0
    }

    /// The unit as a fraction of a whole note, as a model.
    pub closed spec fn value(self) -> (int, int) {
        self.0@
    }

    /// The default: BPM counts quarter notes.
    pub fn quarter() -> (u: BpmUnit)
        ensures
            u.value() == (1int, 4int),
    {
        let r = Rational::new(1, 4);
        proof {
            reveal_with_fuel(crate::arith::spec_gcd, 3);
            lemma_canonical_of_canonical((1, 4));
        }
        BpmUnit(r)
    }

    /// Dotted quarter — the usual count for 6/8, 9/8, 12/8.
    pub fn dotted_quarter() -> (u: BpmUnit)
        ensures
            u.value() == (3int, 8int),
    {
        let r = Rational::new(3, 8);
        proof {
            reveal_with_fuel(crate::arith::spec_gcd, 5);
            lemma_canonical_of_canonical((3, 8));
        }
        BpmUnit(r)
    }

    /// `a/b` of a whole note, reduced; both numbers positive.
    pub fn new(a: u32, b: u32) -> (r: Result<BpmUnit, Error>)
        ensures
            a > 0 && b > 0 ==> (r matches Ok(u) && u.value() == canonical(a as int, b as int)),
            !(a > 0 && b > 0) ==> (r matches Err(Error::BpmUnit(text)) && text@ == pair_text(
                a as nat,
                b as nat,
            )),
    {
        if a == 0 || b == 0 {
            let mut text = String::new();
            push_pair(&mut text, a, b);
            proof {
                assert(text@ =~= pair_text(a as nat, b as nat));
            }
            return Err(Error::BpmUnit(text));
        }
        let r = Rational::new(a as i128, b as i128);
        proof {
            lemma_canonical(a as int, b as int);
            if r@.0 <= 0 {
                assert(r@.0 * (b as int) == (a as int) * r@.1);
                assert(false) by (nonlinear_arith)
                    requires
                        r@.0 * (b as int) == (a as int) * r@.1,
                        r@.0 <= 0,
                        a > 0,
                        b > 0,
                        r@.1 > 0,
                ;
            }
        }
        Ok(BpmUnit(r))
    }

    /// The unit as a fraction of a whole note.
    pub fn whole_notes(self) -> (r: Rational)
        ensures
            r@ == self.value(),
            r.wf(),
            r@.0 > 0,
    {
        proof {
            use_type_invariant(&self);
            use_type_invariant(&self.0);
            Rational::lemma_inv(self.0);
        }
        self.0
    }

    /// Parses `a/b`: whitespace around either number is ignored.
    pub fn parse(s: &str) -> (r: Result<BpmUnit, Error>)
        ensures
            unit_read(s@, r),
    {
        match read_u32_pair(s) {
            None => Err(Error::BpmUnit(s.to_owned())),
            Some((a, b)) => BpmUnit::new(a, b),
        }
    }

    /// `a/b`, reduced.
    pub fn to_string(&self) -> (s: String)
        ensures
            s@ == crate::text::signed_decimal(self.value().0) + seq!['/']
                + crate::text::signed_decimal(self.value().1),
    {
        let mut s = String::new();
        crate::text::push_signed(&mut s, self.0.num());
        push_char(&mut s, '/');
        crate::text::push_signed(&mut s, self.0.den());
        proof {
            assert(s@ =~= crate::text::signed_decimal(self.value().0) + seq!['/']
                + crate::text::signed_decimal(self.value().1));
        }
        s
    }
}

impl Default for BpmUnit {
    fn default() -> (u: BpmUnit)
        ensures
            u.value() == (1int, 4int),
    {
        BpmUnit::quarter()
    }
}

impl core::str::FromStr for BpmUnit {
    type Err = Error;

    /// [`BpmUnit::parse`].
    fn from_str(s: &str) -> (r: Result<BpmUnit, Error>)
        ensures
            unit_read(s@, r),
    {
        BpmUnit::parse(s)
    }
}

} // verus!
