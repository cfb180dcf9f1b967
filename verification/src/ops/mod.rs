//! The decisions the audio operations are made of.
//!
//! The sample arithmetic itself is floating point; what is decided here —
//! whether to dither, how long a fade is, where a stepped play head lands — is
//! exact.

pub mod dither;
pub mod fade;
pub mod fx;
pub mod preview;
pub mod resample;
