//! The one error type the library reports.

use vstd::prelude::*;

verus! {

/// What can go wrong, named.
///
/// The messages a front end shows for each variant are its own business; this
/// type carries the values they are built from.
#[derive(Debug, Clone, PartialEq)]
pub enum Error {
    /// An invalid time signature, as it was written.
    TimeSignature(String),
    /// An invalid BPM unit, as it was written.
    BpmUnit(String),
    /// An invalid tempo, as it was written.
    Tempo(String),
    NotRiff,
    NotWave,
    /// The chunk id whose body is malformed.
    MalformedChunk(&'static str),
    /// The chunk id that is missing.
    MissingChunk(&'static str),
    /// A format tag other than PCM or IEEE float.
    UnsupportedFormat(u16),
    /// A bit depth the format cannot be read at.
    UnsupportedBitDepth(u16),
    /// An output bit depth name that is not one of the four offered.
    BitDepthName(String),
    /// More channels than a WAVE header can declare.
    TooManyChannels(usize),
    /// An output past the 4 GiB a RIFF file can address.
    FileTooLarge(u64),
    /// A speed ratio that is not strictly positive, as the exact fraction.
    SpeedRatio(crate::rational::Rational),
    EmptyResampleInput,
    EmptyResampleOutput,
    EmptyLoop,
    SourceShorterThanLoop { have: usize, need: usize },
    NoTempo,
    NoLoopLength,
    /// A loop longer than this machine can index.
    LoopTooLong(u64),
    /// No sample-exact tempo near where a varispeed lands.
    NoSampleExactTempo { landing: crate::timing::tempo::Tempo, window: u32, bars: u64 },
}

} // verus!
