//! The resampler's configuration.
//!
//! The kernel reads circularly by default: a loop *is* periodic, so a sample
//! before the start is the sample near the end. Treating the outside as zero
//! would drain energy from the first and last few dozen samples and put a dip
//! exactly at the seam.

use vstd::prelude::*;

verus! {

/// What lies outside the buffer.
#[derive(Copy, Clone, Debug, PartialEq, Eq, Structural)]
pub enum Edge {
    /// The buffer is one period of a loop: index past the end wraps to the
    /// start. Correct for anything a cut produces, and the default.
    Wrap,
    /// Silence outside. For material that is not a loop.
    Zero,
}

impl Default for Edge {
    fn default() -> (e: Edge)
        ensures
            e == Edge::Wrap,
    {
        Edge::Wrap
    }
}

/// Windowed-sinc interpolation with a Blackman–Harris window.
#[derive(Copy, Clone, Debug, PartialEq, Eq, Structural)]
pub struct SincResampler {
    /// Sinc zero crossings each side of centre, at the kernel's cutoff.
    ///
    /// The quality knob. 32 gives a stopband around −90 dB, below the noise
    /// floor of 16-bit output; the cost is linear in this number.
    pub zero_crossings: usize,
    pub edge: Edge,
}

impl Default for SincResampler {
    fn default() -> (s: SincResampler)
        ensures
            s == (SincResampler { zero_crossings: 32, edge: Edge::Wrap }),
    {
        SincResampler { zero_crossings: 32, edge: Edge::Wrap }
    }
}

impl SincResampler {
    /// Fewer taps, for previewing where latency beats a −90 dB stopband.
    pub fn fast() -> (s: SincResampler)
        ensures
            s == (SincResampler { zero_crossings: 8, edge: Edge::Wrap }),
    {
        SincResampler { zero_crossings: 8, ..SincResampler::default() }
    }

    pub fn with_edge(self, edge: Edge) -> (s: SincResampler)
        ensures
            s == (SincResampler { edge, ..self }),
    {
        SincResampler { edge, ..self }
    }
}

} // verus!
