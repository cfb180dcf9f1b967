//! Where a stepped play head lands, and which of two loops is sounding.
//!
//! Everything here is a function of the step index alone. The index runs 0,
//! 1, … and resets at the loop boundary, so whatever a shape does, it does the
//! same thing on the next time round. Nothing here may consult a clock, a random
//! number generator or how long playback has been running, or the loop stops
//! being a loop.

use vstd::prelude::*;

verus! {

/// How the displacement moves from one step to the next.
#[derive(Clone, Copy, PartialEq, Eq, Debug, Structural)]
pub enum Shape {
    /// Climbs a step at a time and drops back. Reads as an accelerating stutter.
    Rise,
    /// The same, downwards — each step reaches further back.
    Fall,
    /// Up and back down again. Nothing repeats twice in a row at the turn.
    Swing,
    /// Scattered, but the *same* scatter every time round.
    Scatter,
    /// A random walk: each move is a step away from the one before, so it
    /// wanders through the loop instead of shuffling it.
    Walk,
}

/// A stepped displacement of the play head that always lands on the grid.
///
/// The loop is divided into `steps` equal pieces; on each move the play head
/// is displaced by a whole number of pieces, never a fraction of one.
#[derive(Clone, Copy, PartialEq, Eq, Debug, Structural)]
pub struct Motion {
    /// How many equal pieces the loop is divided into. The grid.
    pub steps: u32,
    /// How far a displacement may reach, in pieces.
    pub depth: u32,
    /// How many pieces pass between one move and the next. Zero counts as one.
    pub every: u32,
    pub shape: Shape,
}

/// Two loops of one length, swapped on a grid of their own.
#[derive(Clone, Copy, PartialEq, Eq, Debug, Structural)]
pub struct Pair {
    /// The loop divided into this many equal pieces, for the swap to land on.
    pub steps: u32,
    /// How many pieces to stay on the first loop.
    pub hold_a: u32,
    /// How many pieces to stay on the second.
    pub hold_b: u32,
}

/// Whether piece `index` belongs to the second loop: the pieces cycle through
/// `hold_a` on the first and then `hold_b` on the second.
pub open spec fn on_second_model(p: Pair, index: int) -> bool {
    let cycle = p.hold_a + p.hold_b;
    cycle != 0 && p.hold_b != 0 && index % cycle >= p.hold_a
}

impl Pair {
    /// Whether piece `index` belongs to the second loop.
    ///
    /// A function of the index, like everything else here, so the alternation
    /// repeats when the loop does.
    pub fn on_second(&self, index: u64) -> (r: bool)
        ensures
            r == on_second_model(*self, index as int),
    {
        let cycle: u64 = self.hold_a as u64 + self.hold_b as u64;
        if cycle == 0 || self.hold_b == 0 {
            return false;
        }
        index % cycle >= self.hold_a as u64
    }
}

/// Splitmix64's finaliser.
pub open spec fn splitmix(index: u64) -> u64 {
    let a = index.wrapping_mul(0x9E37_79B9_7F4A_7C15);
    let b = (a ^ (a >> 30u64)).wrapping_mul(0xBF58_476D_1CE4_E5B9);
    let c = (b ^ (b >> 27u64)).wrapping_mul(0x94D0_49BB_1331_11EB);
    c ^ (c >> 31u64)
}

/// Splitmix64's finaliser: same input, same answer, forever.
///
/// A hash rather than a generator, and that is the point: a generator would
/// answer differently on the second pass through the loop.
fn hash(index: u64) -> (r: u64)
    ensures
        r == splitmix(index),
{
    let mut x = index.wrapping_mul(0x9E37_79B9_7F4A_7C15);
    x = (x ^ (x >> 30u64)).wrapping_mul(0xBF58_476D_1CE4_E5B9);
    x = (x ^ (x >> 27u64)).wrapping_mul(0x94D0_49BB_1331_11EB);
    x ^ (x >> 31u64)
}

/// The walk's move at step `i`: up when the hash of `i` is even, down when odd.
pub open spec fn walk_move(i: int) -> int {
    if splitmix(i as u64) & 1u64 == 0 {
        1
    } else {
        -1
    }
}

/// A position that stepped just outside `[0, span)` reflected back in.
pub open spec fn reflect(at: int, span: int) -> int {
    if at < 0 {
        if 1 < span - 1 {
            1
        } else {
            span - 1
        }
    } else if at >= span {
        if span - 2 > 0 {
            span - 2
        } else {
            0
        }
    } else {
        at
    }
}

/// Where the walk with reach `depth` stands after its first `n` moves.
pub open spec fn walk(depth: int, n: nat) -> int
    decreases n,
{
    if n == 0 {
        0
    } else {
        reflect(walk(depth, (n - 1) as nat) + walk_move(n - 1), depth + 1)
    }
}

/// The displacement of move `index` under `m`, in pieces.
pub open spec fn offset_model(m: Motion, index: int) -> int {
    let depth = m.depth as int;
    let span = depth + 1;
    if depth == 0 {
        0
    } else {
        match m.shape {
            Shape::Rise => index % span,
            Shape::Fall => depth - index % span,
            Shape::Swing => {
                let j = index % (2 * depth);
                if j <= depth {
                    j
                } else {
                    2 * depth - j
                }
            },
            Shape::Scatter => (splitmix(index as u64) % (span as u64)) as int,
            Shape::Walk => walk(depth, (index + 1) as nat),
        }
    }
}

/// The walk never leaves `[0, depth]`.
pub proof fn lemma_walk_within_reach(depth: int, n: nat)
    requires
        depth >= 1,
    ensures
        0 <= walk(depth, n) <= depth,
    decreases n,
{
    if n > 0 {
        lemma_walk_within_reach(depth, (n - 1) as nat);
    }
}

/// Every shape stays within its reach: a displacement is never more than
/// `depth` pieces, and never negative.
pub proof fn law_offset_within_reach(m: Motion, index: u64)
    ensures
        0 <= offset_model(m, index as int) <= m.depth,
{
    let depth = m.depth as int;
    if depth >= 1 {
        match m.shape {
            Shape::Walk => lemma_walk_within_reach(depth, (index + 1) as nat),
            Shape::Swing => {
                let j = index as int % (2 * depth);
                assert(0 <= j < 2 * depth);
            },
            _ => {},
        }
    }
}

/// A walk moves one piece at a time: neighbouring moves of a walk differ by
/// exactly one piece, whatever the hash says, because it is reflected at the
/// ends of its reach rather than wrapped.
pub proof fn law_walk_moves_one_piece_at_a_time(m: Motion, index: u64)
    requires
        m.shape == Shape::Walk,
        m.depth >= 1,
        index < u64::MAX,
    ensures
        offset_model(m, index + 1) - offset_model(m, index as int) == 1
            || offset_model(m, index as int) - offset_model(m, index + 1) == 1,
{
    lemma_walk_within_reach(m.depth as int, (index + 1) as nat);
}

/// The swap schedule repeats with its own cycle: a piece one whole cycle later
/// sounds the same loop.
pub proof fn law_the_swap_repeats(p: Pair, index: int)
    requires
        index >= 0,
    ensures
        on_second_model(p, index + p.hold_a + p.hold_b) == on_second_model(p, index),
{
    let cycle = p.hold_a + p.hold_b;
    if cycle != 0 {
        assert((cycle + index) % cycle == index % cycle) by {
            vstd::arithmetic::div_mod::lemma_mod_add_multiples_vanish(index, cycle);
        }
    }
}

impl Motion {
    /// Which move a piece index belongs to.
    ///
    /// Pieces inside one move share a slot, so the displacement does not change
    /// under them: that is what a rate coarser than the grid is.
    pub fn slot(&self, index: u64) -> (r: u64)
        ensures
            r == index / (if self.every == 0 {
                1
            } else {
                self.every as u64
            }),
    {
        let every: u64 = if self.every == 0 {
            1
        } else {
            self.every as u64
        };
        index / every
    }

    /// The displacement for move `index`, in pieces.
    ///
    /// Total: a depth of zero gives zero everywhere rather than a division by
    /// zero, and any index works. Never further than the depth.
    pub fn offset(&self, index: u64) -> (r: u64)
        ensures
            r == offset_model(*self, index as int),
            r <= self.depth,
    {
        if self.depth == 0 {
            return 0;
        }
        let depth: u64 = self.depth as u64;
        let span: u64 = depth + 1;
        match self.shape {
            Shape::Rise => index % span,
            Shape::Fall => depth - (index % span),
            Shape::Swing => {
                // A triangle of period 2·depth, so the turn does not repeat the
                // end value twice: 0,1,2,1,0,1,2 rather than 0,1,2,2,1,0.
                let period: u64 = depth * 2;
                let j: u64 = index % period;
                if j <= depth {
                    j
                } else {
                    period - j
                }
            },
            Shape::Scatter => hash(index) % span,
            Shape::Walk => {
                // Walked from the beginning rather than carried in a field, so
                // it stays a pure function of the index.
                let span_i: i64 = span as i64;
                let ghost d: int = depth as int;
                let mut at: i64 = 0;
                let mut i: u64 = 0;
                proof {
                    lemma_walk_within_reach(d, 0);
                }
                loop
                    invariant_except_break
                        i <= index,
                        at == walk(d, i as nat),
                    invariant
                        d == self.depth,
                        d >= 1,
                        span_i == d + 1,
                        0 <= at <= d,
                    ensures
                        at == walk(d, (index + 1) as nat),
                    decreases index - i,
                {
                    // Reflected at the ends rather than wrapped: a wrap would
                    // teleport from one edge of the reach to the other.
                    let step: i64 = if hash(i) & 1u64 == 0 {
                        1
                    } else {
                        -1
                    };
                    at = at + step;
                    if at < 0 {
                        at = if 1 < span_i - 1 {
                            1
                        } else {
                            span_i - 1
                        };
                    } else if at >= span_i {
                        at = if span_i - 2 > 0 {
                            span_i - 2
                        } else {
                            0
                        };
                    }
                    proof {
                        lemma_walk_within_reach(d, (i + 1) as nat);
                    }
                    if i == index {
                        break;
                    }
                    i = i + 1;
                }
                at as u64
            },
        }
    }
}

} // verus!
