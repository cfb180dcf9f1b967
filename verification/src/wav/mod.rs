//! WAVE reading and writing, hand-rolled over a shared RIFF chunk layer.

pub mod chunks;
pub mod read;
pub mod write;
