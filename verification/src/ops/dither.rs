//! Whether and how to dither, and the noise source it draws from.
//!
//! Rounding to a lower bit depth without dither correlates the error with the
//! signal, which is heard as distortion rather than as noise. Triangular
//! probability-density noise of ±1 LSB decorrelates it.
//!
//! **The seed is fixed, deliberately.** The same input and parameters must
//! produce a byte-identical file forever, and a randomly seeded dither would
//! break that on every run. So the noise comes from a deterministic sequence
//! that merely looks like noise — which is all dither has ever needed to be.

use crate::wav::write::{depth_bits, BitDepth};
use vstd::prelude::*;

verus! {

/// Whether to dither, and how.
#[derive(Copy, Clone, Debug, PartialEq, Eq, Structural)]
pub enum Dither {
    /// Never. Right for float output, and for integer output that is already on
    /// the target quantisation grid.
    Off,
    /// Triangular PDF, ±1 LSB. The default when bit depth is being reduced.
    Tpdf,
    /// TPDF noise plus second-order error feedback, so the added noise is
    /// highpass. Quantises the buffer as a side effect.
    Shaped,
}

impl Default for Dither {
    fn default() -> (d: Dither)
        ensures
            d == Dither::Tpdf,
    {
        Dither::Tpdf
    }
}

impl Dither {
    /// Whether this mode leaves the samples on the target quantisation grid.
    pub fn quantises(self) -> (r: bool)
        ensures
            r == (self == Dither::Shaped),
    {
        match self {
            Dither::Shaped => true,
            _ => false,
        }
    }
}

/// The default dither seed: the eight bytes of `loopslcr`, big-endian.
///
/// Arbitrary, as any seed is, and fixed so that runs reproduce each other.
pub const DEFAULT_SEED: u64 = 0x6c6f_6f70_736c_6372;

/// The state xorshift starts from when asked to start from zero, the one
/// state it cannot leave.
pub const ZERO_SEED_REPLACEMENT: u64 = 0x9E37_79B9_7F4A_7C15;

/// One xorshift step of the state: `x ^= x >> 12; x ^= x << 25; x ^= x >> 27`.
pub open spec fn xorshift(x: u64) -> u64 {
    let a = x ^ (x >> 12u64);
    let b = a ^ (a << 25u64);
    b ^ (b >> 27u64)
}

/// What the generator hands out for a state: the state times the xorshift64*
/// multiplier, wrapping.
pub open spec fn scrambled(x: u64) -> u64 {
    x.wrapping_mul(0x2545_F491_4F6C_DD1D)
}

/// A small deterministic generator: xorshift64*.
///
/// Not cryptographic and not trying to be. What dither needs is a flat spectrum
/// and reproducibility, both of which this has, with no dependency.
pub struct Xorshift64Star(u64);

impl Xorshift64Star {
    /// The state is never zero, the one state xorshift cannot leave.
    #[verifier::type_invariant]
    pub closed spec fn inv(self) -> bool {
        self.0 != 0
    }

    /// The current state.
    pub closed spec fn state(self) -> u64 {
        self.0
    }

    /// A generator seeded with `seed`; zero is replaced.
    pub fn new(seed: u64) -> (g: Xorshift64Star)
        ensures
            g.state() == (if seed == 0 {
                ZERO_SEED_REPLACEMENT
            } else {
                seed
            }),
    {
        Xorshift64Star(
            if seed == 0 {
                ZERO_SEED_REPLACEMENT
            } else {
                seed
            },
        )
    }

    /// The next 64 bits: the state steps once, and is handed out scrambled.
    pub fn next_u64(&mut self) -> (r: u64)
        ensures
            final(self).state() == xorshift(old(self).state()),
            r == scrambled(xorshift(old(self).state())),
    {
        proof {
            use_type_invariant(&*self);
            law_state_never_reaches_zero(self.0);
        }
        let mut x = self.0;
        x = x ^ (x >> 12u64);
        x = x ^ (x << 25u64);
        x = x ^ (x >> 27u64);
        self.0 = x;
        x.wrapping_mul(0x2545_F491_4F6C_DD1D)
    }
}

/// Zero is the one state xorshift cannot leave, and the only one that leads
/// to it: a generator that starts anywhere else never gets stuck.
pub proof fn law_state_never_reaches_zero(x: u64)
    ensures
        x != 0 ==> xorshift(x) != 0,
{
    let a = x ^ (x >> 12u64);
    let b = a ^ (a << 25u64);
    let c = b ^ (b >> 27u64);
    assert(x != 0 ==> a != 0) by (bit_vector)
        requires
            a == x ^ (x >> 12u64),
    ;
    assert(a != 0 ==> b != 0) by (bit_vector)
        requires
            b == a ^ (a << 25u64),
    ;
    assert(b != 0 ==> c != 0) by (bit_vector)
        requires
            c == b ^ (b >> 27u64),
    ;
}

/// Whether dither is called for when going from `source_bits` to `target`.
///
/// True only when the depth actually drops. Equal or rising depth needs none:
/// the samples already sit on a finer grid than the output. Float has no grid
/// to dither against.
pub fn is_called_for(source_bits: u16, target: BitDepth) -> (r: bool)
    ensures
        r == (target != BitDepth::Float32 && depth_bits(target) < source_bits),
{
    !target.is_float() && target.bits() < source_bits
}

} // verus!
