//! A motion packed into one word, so it can cross threads in a single atomic.
//!
//! The layout is private to this file and its inverse. Bit 63 says whether
//! there is a motion at all, so "off" is a distinct value rather than a depth
//! that happens to be zero. Bits 0–15 hold the steps, 16–31 the depth, 32–35
//! the shape and 36–51 how many pieces pass between moves.

use crate::ops::preview::{law_offset_within_reach, offset_model, Motion, Shape};
use vstd::prelude::*;

verus! {

/// The most pieces a loop may be divided into.
pub const MAX_STEPS: u32 = 4096;

/// The highest shape number [`unpack_motion`] knows by name.
pub const LAST_SHAPE: u32 = 4;

/// The shape a shape number names: out-of-range numbers mean the first.
pub open spec fn shape_named(n: int) -> Shape {
    if n == 1 {
        Shape::Fall
    } else if n == 2 {
        Shape::Swing
    } else if n == 3 {
        Shape::Scatter
    } else if n == 4 {
        Shape::Walk
    } else {
        Shape::Rise
    }
}

/// The motion a control surface asked for, after clamping: at most
/// `MAX_STEPS` pieces, a depth short of the whole loop, and at least one and
/// at most `steps` pieces between moves. `None` when it is off or has no grid.
pub open spec fn requested_motion(on: bool, steps: u32, depth: u32, every: u32, shape: u32) -> Option<
    Motion,
> {
    if !on || steps == 0 {
        None
    } else {
        let s: u32 = if steps <= MAX_STEPS {
            steps
        } else {
            MAX_STEPS
        };
        let d: u32 = if depth <= s - 1 {
            depth
        } else {
            (s - 1) as u32
        };
        let e: u32 = if every < 1 {
            1
        } else if every > s {
            s
        } else {
            every
        };
        Some(Motion { steps: s, depth: d, every: e, shape: shape_named(shape as int) })
    }
}

/// Packs a motion into one word.
///
/// Clamped rather than refused: these values arrive from a control surface,
/// and a depth wider than the loop is a request for something that does not
/// exist, not an error worth failing playback over. An unknown shape number
/// becomes the first shape here, rather than whichever one its low bits name.
pub fn pack_motion(on: bool, steps: u32, depth: u32, every: u32, shape: u32) -> (bits: u64)
    ensures
        (!on || steps == 0) ==> bits == 0,
        motion_in(bits) == requested_motion(on, steps, depth, every, shape),
{
    if !on || steps == 0 {
        assert(0u64 >> 63u64 == 0) by (bit_vector);
        return 0;
    }
    let s: u32 = if steps <= MAX_STEPS {
        steps
    } else {
        MAX_STEPS
    };
    let d: u32 = if depth <= s - 1 {
        depth
    } else {
        s - 1
    };
    let e: u32 = if every < 1 {
        1
    } else if every > s {
        s
    } else {
        every
    };
    let n: u32 = if shape > LAST_SHAPE {
        0
    } else {
        shape
    };
    let (s64, d64, n64, e64) = (s as u64, d as u64, n as u64, e as u64);
    let bits: u64 = 1u64 << 63u64 | s64 | d64 << 16u64 | n64 << 32u64 | e64 << 36u64;
    assert(bits >> 63u64 == 1 && bits & 0xFFFFu64 == s64 && bits >> 16u64 & 0xFFFFu64 == d64
        && bits >> 32u64 & 0xFu64 == n64 && bits >> 36u64 & 0xFFFFu64 == e64) by (bit_vector)
        requires
            bits == 1u64 << 63u64 | s64 | d64 << 16u64 | n64 << 32u64 | e64 << 36u64,
            s64 < 0x10000,
            d64 < 0x10000,
            n64 < 16,
            e64 < 0x10000,
    ;
    bits
}

/// The motion a word holds, or `None` when bit 63 says there is none.
pub open spec fn motion_in(bits: u64) -> Option<Motion> {
    if bits >> 63u64 == 0 {
        None
    } else {
        Some(
            Motion {
                steps: (bits & 0xFFFFu64) as u32,
                depth: (bits >> 16u64 & 0xFFFFu64) as u32,
                every: (bits >> 36u64 & 0xFFFFu64) as u32,
                shape: shape_named((bits >> 32u64 & 0xFu64) as int),
            },
        )
    }
}

/// Reads a motion back out of the word [`pack_motion`] made.
pub fn unpack_motion(bits: u64) -> (m: Option<Motion>)
    ensures
        m == motion_in(bits),
{
    if bits >> 63u64 == 0 {
        return None;
    }
    Some(
        Motion {
            steps: (bits & 0xFFFFu64) as u32,
            depth: (bits >> 16u64 & 0xFFFFu64) as u32,
            every: (bits >> 36u64 & 0xFFFFu64) as u32,
            shape: match bits >> 32u64 & 0xFu64 {
                1 => Shape::Fall,
                2 => Shape::Swing,
                3 => Shape::Scatter,
                4 => Shape::Walk,
                _ => Shape::Rise,
            },
        },
    )
}

/// A motion that travelled in the word never displaces the play head out of
/// the loop: its reach is clamped short of the whole loop, so every offset
/// lands on one of its `steps` pieces.
pub proof fn law_a_packed_motion_stays_inside_the_loop(
    on: bool,
    steps: u32,
    depth: u32,
    every: u32,
    shape: u32,
    index: u64,
)
    ensures
        requested_motion(on, steps, depth, every, shape) matches Some(m) ==> 0 <= offset_model(
            m,
            index as int,
        ) < m.steps,
{
    if let Some(m) = requested_motion(on, steps, depth, every, shape) {
        law_offset_within_reach(m, index);
    }
}

} // verus!
