//! What the embedding layer decides: the word a motion travels in between the
//! control thread and the audio thread, the flat JSON that carries
//! parameters and reports across the boundary, the run parameters read out of
//! it, and the words those reports use.

pub mod json;
pub mod motion;
pub mod names;
pub mod params;
pub mod table;
