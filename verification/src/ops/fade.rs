//! Micro-fades at the loop boundaries: how long they are.
//!
//! A fade is a safety net, not the mechanism. A cut on the grid from a settled
//! region already meets itself at the seam; what is left is the case where the
//! waveform happens to be mid-cycle at the cut point, where the jump from the
//! last sample to the first is a click. Fading in at the start and out at the
//! end drives both sides of the seam to zero — so short by default, and off is
//! a legitimate choice.

use vstd::prelude::*;

verus! {

/// The curve a fade follows.
#[derive(Copy, Clone, Debug, PartialEq, Eq, Structural)]
pub enum FadeShape {
    /// A straight ramp. Its slope jumps at both ends of the fade.
    Linear,
    /// Raised cosine. Reaches its endpoints with zero slope, so the signal and
    /// its first derivative are both continuous. The default for that reason.
    Cosine,
}

impl Default for FadeShape {
    fn default() -> (s: FadeShape)
        ensures
            s == FadeShape::Cosine,
    {
        FadeShape::Cosine
    }
}

/// A fade of a given length.
#[derive(Copy, Clone, Debug, PartialEq, Eq, Structural)]
pub struct Fade {
    pub frames: usize,
    pub shape: FadeShape,
}

impl Fade {
    pub fn new(frames: usize, shape: FadeShape) -> (f: Fade)
        ensures
            f == (Fade { frames, shape }),
    {
        Fade { frames, shape }
    }

    /// The default micro-fade: half a millisecond at `sample_rate`, rounded up
    /// to whole frames, so a rate low enough to round to zero still fades.
    ///
    /// Long enough to remove a step at any audible frequency, short enough that
    /// the dip it leaves at the seam is below notice on percussive material.
    pub fn micro(sample_rate: u32) -> (f: Fade)
        ensures
            f.frames == (sample_rate as int + 1999) / 2000,
            f.shape == FadeShape::Cosine,
            f.frames * 2000 >= sample_rate,
            (f.frames - 1) * 2000 < sample_rate,
    {
        let frames: u64 = (sample_rate as u64 + 1999) / 2000;
        Fade { frames: frames as usize, shape: FadeShape::Cosine }
    }

    pub fn is_none(&self) -> (r: bool)
        ensures
            r == (self.frames == 0),
    {
        self.frames == 0
    }

    /// The fade applied at both ends of `frames` frames: capped at half of
    /// them, so the two ramps meet in the middle instead of overlapping and
    /// multiplying.
    pub fn capped(&self, frames: usize) -> (f: Fade)
        ensures
            f.shape == self.shape,
            f.frames == (if self.frames <= frames / 2 {
                self.frames
            } else {
                frames / 2
            }),
            2 * f.frames <= frames,
    {
        Fade {
            frames: if self.frames <= frames / 2 {
                self.frames
            } else {
                frames / 2
            },
            shape: self.shape,
        }
    }
}

} // verus!
