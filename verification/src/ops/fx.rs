//! The live insert's switches: which comes first, and what the filter does.
//!
//! The insert itself is sample arithmetic; these are the positions of its
//! panel, which a front end stores and hands back.

use vstd::prelude::*;

verus! {

/// Which comes first.
#[derive(Copy, Clone, Debug, PartialEq, Eq, Structural)]
pub enum Route {
    /// Filter, then drive. The drive hears only what got through.
    FilterFirst,
    /// Drive, then filter. The filter decides how much of the dirt you hear.
    DriveFirst,
}

impl Default for Route {
    fn default() -> (r: Route)
        ensures
            r == Route::FilterFirst,
    {
        Route::FilterFirst
    }
}

/// What the filter does, if anything.
#[derive(Copy, Clone, Debug, PartialEq, Eq, Structural)]
pub enum Mode {
    /// A wire. Not a filter at a harmless setting — no filter at all.
    Off,
    LowPass,
    HighPass,
    BandPass,
}

impl Default for Mode {
    fn default() -> (m: Mode)
        ensures
            m == Mode::Off,
    {
        Mode::Off
    }
}

} // verus!
