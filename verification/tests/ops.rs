use loopslcr::bridge::motion::{pack_motion, unpack_motion};
use loopslcr::ops::dither::{is_called_for, Dither, Xorshift64Star, DEFAULT_SEED};
use loopslcr::ops::fade::{Fade, FadeShape};
use loopslcr::ops::preview::{Motion, Pair, Shape};
use loopslcr::ops::resample::{Edge, SincResampler};
use loopslcr::wav::write::BitDepth;

#[test]
fn dither_is_called_for_only_when_the_depth_drops() {
    assert!(is_called_for(24, BitDepth::Int16));
    assert!(is_called_for(32, BitDepth::Int24));
    // Equal or rising depth: rounding is exact, so noise would be pure loss.
    assert!(!is_called_for(24, BitDepth::Int24));
    assert!(!is_called_for(16, BitDepth::Int24));
    assert!(!is_called_for(16, BitDepth::Int32));
    // Float has no grid to dither against.
    assert!(!is_called_for(24, BitDepth::Float32));
}

#[test]
fn the_generator_does_not_get_stuck() {
    // Xorshift cannot leave a zero state, so a zero seed has to be replaced.
    let mut rng = Xorshift64Star::new(0);
    let first = rng.next_u64();
    assert_ne!(first, 0);
    assert_ne!(first, rng.next_u64());

    // Every draw stays in [0, 1).
    let mut rng = Xorshift64Star::new(DEFAULT_SEED);
    for _ in 0..10_000 {
        let x = (rng.next_u64() >> 11) as f64 / (1u64 << 53) as f64;
        assert!((0.0..1.0).contains(&x), "{x} out of range");
    }
}

#[test]
fn the_default_seed_spells_the_name() {
    assert_eq!(DEFAULT_SEED, u64::from_be_bytes(*b"loopslcr"));
}

#[test]
fn a_known_seed_gives_the_known_first_draw() {
    // One xorshift step of 1 is 1 ^ (1 << 25) ^ ((1 ^ (1 << 25)) >> 27) = 0x2000001,
    // and the draw is that times the xorshift64* multiplier, wrapping.
    let mut rng = Xorshift64Star::new(1);
    let x: u64 = 0x200_0001;
    assert_eq!(rng.next_u64(), x.wrapping_mul(0x2545_F491_4F6C_DD1D));
}

#[test]
fn only_shaped_dither_quantises() {
    assert!(Dither::Shaped.quantises());
    assert!(!Dither::Tpdf.quantises());
    assert!(!Dither::Off.quantises());
    assert_eq!(Dither::default(), Dither::Tpdf);
}

#[test]
fn the_micro_fade_is_half_a_millisecond_rounded_up() {
    assert_eq!(Fade::micro(44_100).frames, 23);
    assert_eq!(Fade::micro(48_000).frames, 24);
    assert_eq!(Fade::micro(1_000).frames, 1);
    assert_eq!(Fade::micro(0).frames, 0);
    assert_eq!(Fade::micro(44_100).shape, FadeShape::Cosine);
    assert!(Fade::new(0, FadeShape::Linear).is_none());
}

#[test]
fn a_fade_at_both_ends_is_capped_at_half_the_buffer() {
    let f = Fade::new(100, FadeShape::Linear);
    assert_eq!(f.capped(50).frames, 25);
    assert_eq!(f.capped(1000).frames, 100);
    assert_eq!(f.capped(51).shape, FadeShape::Linear);
}

#[test]
fn the_resampler_reads_circularly_by_default() {
    let r = SincResampler::default();
    assert_eq!(r.zero_crossings, 32);
    assert_eq!(r.edge, Edge::Wrap);
    assert_eq!(SincResampler::fast().zero_crossings, 8);
    assert_eq!(SincResampler::fast().with_edge(Edge::Zero).edge, Edge::Zero);
}

#[test]
fn each_shape_is_a_function_of_the_step_alone() {
    // Which is what makes the loop repeat. Asked twice for the same index,
    // every shape has to answer the same thing — including the scattered
    // one, whose whole trick is being a hash rather than a generator.
    for shape in [Shape::Rise, Shape::Fall, Shape::Swing, Shape::Scatter, Shape::Walk] {
        let motion = Motion {
            steps: 16,
            depth: 4,
            every: 1,
            shape,
        };
        for index in 0..64u64 {
            assert_eq!(motion.offset(index), motion.offset(index), "{shape:?}");
            assert!(
                motion.offset(index) <= 4,
                "{shape:?} reached {} with a depth of 4",
                motion.offset(index),
            );
        }
    }

    let rise = Motion {
        steps: 16,
        depth: 3,
        every: 1,
        shape: Shape::Rise,
    };
    assert_eq!(
        (0..8).map(|i| rise.offset(i)).collect::<Vec<_>>(),
        vec![0, 1, 2, 3, 0, 1, 2, 3],
    );

    let swing = Motion {
        steps: 16,
        depth: 2,
        every: 1,
        shape: Shape::Swing,
    };
    assert_eq!(
        (0..8).map(|i| swing.offset(i)).collect::<Vec<_>>(),
        vec![0, 1, 2, 1, 0, 1, 2, 1],
    );
}

#[test]
fn the_walk_wanders_where_the_scatter_lurches() {
    // Neighbouring moves of a walk stay near each other — a phrase survives
    // being moved — while a scatter is free to leap the whole reach every time.
    let walk = Motion {
        steps: 64,
        depth: 7,
        every: 1,
        shape: Shape::Walk,
    };
    let scatter = Motion {
        shape: Shape::Scatter,
        ..walk
    };

    let jumpiness = |m: Motion| {
        (1..64u64)
            .map(|i| (m.offset(i) as i64 - m.offset(i - 1) as i64).abs())
            .sum::<i64>() as f64
            / 63.0
    };

    let walked = jumpiness(walk);
    let scattered = jumpiness(scatter);
    assert!(
        (walked - 1.0).abs() < 1e-9,
        "a walk moved by {walked} pieces on average, not one",
    );
    assert!(
        scattered > walked * 2.0,
        "walk {walked}, scatter {scattered} — they are the same shape",
    );

    // Still inside the reach, and still the same every time round.
    for i in 0..200u64 {
        assert!(walk.offset(i) <= 7, "reached {} of 7", walk.offset(i));
        assert_eq!(walk.offset(i), walk.offset(i));
    }
}

#[test]
fn the_scattered_shape_actually_scatters() {
    // A hash that returned a constant would pass every determinism test and
    // be nothing at all.
    let motion = Motion {
        steps: 32,
        depth: 7,
        every: 1,
        shape: Shape::Scatter,
    };
    let seen: std::collections::BTreeSet<u64> = (0..32).map(|i| motion.offset(i)).collect();
    assert!(seen.len() >= 5, "only {} distinct offsets", seen.len());
}

#[test]
fn a_fall_reaches_back_and_a_depth_of_zero_stays_put() {
    let fall = Motion {
        steps: 16,
        depth: 3,
        every: 1,
        shape: Shape::Fall,
    };
    assert_eq!(
        (0..8).map(|i| fall.offset(i)).collect::<Vec<_>>(),
        vec![3, 2, 1, 0, 3, 2, 1, 0],
    );
    let still = Motion { depth: 0, ..fall };
    assert!((0..100).all(|i| still.offset(i) == 0));
}

#[test]
fn a_rate_coarser_than_the_grid_shares_a_slot() {
    let m = Motion {
        steps: 16,
        depth: 3,
        every: 4,
        shape: Shape::Rise,
    };
    assert_eq!((0..9).map(|i| m.slot(i)).collect::<Vec<_>>(), vec![0, 0, 0, 0, 1, 1, 1, 1, 2]);
    let zero = Motion { every: 0, ..m };
    assert_eq!(zero.slot(7), 7);
}

#[test]
fn the_pair_alternates_and_repeats() {
    let pair = Pair {
        steps: 4,
        hold_a: 2,
        hold_b: 2,
    };
    assert_eq!(
        (0..8).map(|i| pair.on_second(i)).collect::<Vec<_>>(),
        vec![false, false, true, true, false, false, true, true],
    );
    let never = Pair { hold_b: 0, ..pair };
    assert!((0..16).all(|i| !never.on_second(i)));
    let empty = Pair {
        steps: 4,
        hold_a: 0,
        hold_b: 0,
    };
    assert!(!empty.on_second(3));
}

#[test]
fn a_motion_survives_the_word_it_travels_in() {
    // The one place this can go wrong silently: a field that overlaps its
    // neighbour comes back as a plausible-looking grid rather than as an
    // error, and the loop plays a pattern nobody asked for.
    for shape in [
        Shape::Rise,
        Shape::Fall,
        Shape::Swing,
        Shape::Scatter,
        Shape::Walk,
    ] {
        for (steps, depth, every) in [
            (1u32, 0u32, 1u32),
            (4, 3, 2),
            (64, 7, 16),
            (4096, 4095, 4096),
        ] {
            let number = match shape {
                Shape::Rise => 0,
                Shape::Fall => 1,
                Shape::Swing => 2,
                Shape::Scatter => 3,
                Shape::Walk => 4,
            };
            let there = pack_motion(true, steps, depth, every, number);
            let back = unpack_motion(there).expect("a motion went in");
            assert_eq!(back.steps, steps, "{shape:?} {steps}/{depth}/{every}");
            assert_eq!(back.depth, depth, "{shape:?} {steps}/{depth}/{every}");
            assert_eq!(back.every, every, "{shape:?} {steps}/{depth}/{every}");
            assert_eq!(back.shape, shape, "{shape:?} {steps}/{depth}/{every}");
        }
    }

    assert_eq!(unpack_motion(pack_motion(false, 8, 3, 1, 0)), None, "off");
    assert_eq!(unpack_motion(pack_motion(true, 0, 3, 1, 0)), None, "no grid");

    // A depth wider than the loop is clamped, not wrapped.
    let wide = unpack_motion(pack_motion(true, 4, 99, 1, 0)).expect("a motion went in");
    assert_eq!(wide.depth, 3);

    // A rate of zero would be a division by it; slower than the loop is one
    // move per pass, which is no motion with extra steps.
    let none = unpack_motion(pack_motion(true, 4, 1, 0, 0)).expect("a motion went in");
    assert_eq!(none.every, 1);
    let slow = unpack_motion(pack_motion(true, 4, 1, 999, 0)).expect("a motion went in");
    assert_eq!(slow.every, 4);

    // An unknown shape is the first one rather than a panic on the audio thread.
    let odd = unpack_motion(pack_motion(true, 4, 1, 1, 77)).expect("a motion went in");
    assert_eq!(odd.shape, Shape::Rise);
}

#[test]
fn more_steps_than_the_word_holds_are_clamped() {
    let m = unpack_motion(pack_motion(true, 100_000, 100_000, 100_000, 2)).expect("a motion");
    assert_eq!((m.steps, m.depth, m.every, m.shape), (4096, 4095, 4096, Shape::Swing));
    assert_eq!(pack_motion(false, 8, 3, 1, 0), 0);
}

#[test]
fn a_motion_from_the_word_never_leaves_the_loop() {
    for shape in 0..5u32 {
        let m = unpack_motion(pack_motion(true, 8, 100, 1, shape)).expect("a motion went in");
        assert_eq!(m.depth, 7);
        for i in 0..200u64 {
            assert!(m.offset(i) < 8, "shape {shape} reached {} of 8 pieces", m.offset(i));
        }
    }
}

#[test]
fn the_default_micro_fade_is_half_a_millisecond() {
    // 0.5 ms at 44.1 kHz is 22.05 frames — rounded up, so the fade is at
    // least as long as asked for.
    assert_eq!(Fade::micro(44_100).frames, 23);
    assert_eq!(Fade::micro(48_000).frames, 24);
    assert_eq!(Fade::micro(96_000).frames, 48);
    assert_eq!(Fade::micro(44_100).shape, FadeShape::Cosine);
}
