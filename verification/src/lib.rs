//! Sample-exact loop trimming: the exact bar grid, the WAVE container, and the
//! decisions a cut is made of.

pub mod analysis;
pub mod arith;
pub mod bridge;
pub mod error;
pub mod naming;
pub mod ops;
pub mod pipeline;
pub mod preset;
pub mod rational;
pub mod text;
pub mod timing;
pub mod wav;

pub use error::Error;
pub use rational::Rational;
