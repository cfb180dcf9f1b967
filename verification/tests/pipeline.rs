use loopslcr::Rational;
use loopslcr::analysis::{describe, Workflow};
use loopslcr::ops::dither::Dither;
use loopslcr::pipeline::{
    can_plan_cut, can_resolve, choose_workflow, cut_plan, nearest_tempo, output_length, Extent, default_fade, dither_applies, extent, path, resolve_bars,
    resolve_ratio, resolve_tempo, skip_bars, BarsSource, DitherPolicy, Stage, Taken, TempoSource,
};
use loopslcr::ops::fade::{Fade, FadeShape};
use loopslcr::timing::grid::{Align, Grid};
use loopslcr::timing::signature::TimeSignature;
use loopslcr::timing::speed::Ratio;
use loopslcr::timing::grid::Region;
use loopslcr::timing::tempo::Tempo;
use loopslcr::wav::write::BitDepth;
use loopslcr::Error;

#[test]
fn dither_policy_auto_only_fires_when_the_depth_drops() {
    assert_eq!(DitherPolicy::Auto.resolve(24, BitDepth::Int16), Dither::Tpdf);
    assert_eq!(DitherPolicy::Auto.resolve(16, BitDepth::Int24), Dither::Off);
    assert_eq!(DitherPolicy::Auto.resolve(24, BitDepth::Float32), Dither::Off);
    // The explicit policies do not consult the source at all.
    assert_eq!(DitherPolicy::Flat.resolve(16, BitDepth::Int24), Dither::Tpdf);
    assert_eq!(DitherPolicy::Shaped.resolve(16, BitDepth::Int24), Dither::Shaped);
    assert_eq!(DitherPolicy::Off.resolve(24, BitDepth::Int16), Dither::Off);
}

#[test]
fn the_defaults_are_auto_dither_and_a_full_run() {
    assert_eq!(DitherPolicy::default(), DitherPolicy::Auto);
    assert_eq!(Stage::default(), Stage::Full);
    assert!(dither_applies(Dither::Tpdf, BitDepth::Int16));
    assert!(!dither_applies(Dither::Tpdf, BitDepth::Float32));
    assert!(!dither_applies(Dither::Off, BitDepth::Int16));
}

#[test]
fn the_labels_name_the_source() {
    assert_eq!(TempoSource::Given.label(), "given");
    assert_eq!(TempoSource::AcidChunk.label(), "from acid chunk");
    assert_eq!(TempoSource::Filename.label(), "from filename");
    assert_eq!(BarsSource::Given.label(), "");
    assert_eq!(BarsSource::Filename.label(), " (from filename)");
    assert_eq!(BarsSource::FileLength.label(), " (from file length)");
}

#[test]
fn a_given_tempo_outranks_both_and_the_chunk_outranks_the_name() {
    let t = |bpm| Some(Tempo::bpm(bpm).unwrap());
    let (tempo, source) = resolve_tempo(t(150), t(200), t(100), false).unwrap();
    assert_eq!((tempo, source), (Tempo::bpm(150).unwrap(), TempoSource::Given));
    let (tempo, source) = resolve_tempo(None, t(200), t(100), false).unwrap();
    assert_eq!((tempo, source), (Tempo::bpm(100).unwrap(), TempoSource::AcidChunk));
    let (tempo, source) = resolve_tempo(None, t(200), t(100), true).unwrap();
    assert_eq!((tempo, source), (Tempo::bpm(200).unwrap(), TempoSource::Filename));
    let (_, source) = resolve_tempo(None, t(200), None, false).unwrap();
    assert_eq!(source, TempoSource::Filename);
    assert_eq!(resolve_tempo(None, None, None, true), Err(Error::NoTempo));
}

#[test]
fn the_loop_length_comes_from_the_parameter_then_the_name_then_the_file() {
    assert_eq!(resolve_bars(Some(8), Some(4), Some(2)), Ok((8, BarsSource::Given)));
    assert_eq!(resolve_bars(None, Some(4), Some(2)), Ok((4, BarsSource::Filename)));
    assert_eq!(resolve_bars(None, None, Some(2)), Ok((2, BarsSource::FileLength)));
    assert_eq!(resolve_bars(None, None, None), Err(Error::NoLoopLength));
}

#[test]
fn forcing_a_workflow_keeps_the_detected_one_beside_it() {
    assert_eq!(
        choose_workflow(
            Some(Workflow::TailFoldback),
            BarsSource::Given,
            None,
            Workflow::WarmupRender
        ),
        (Workflow::WarmupRender, Workflow::TailFoldback)
    );
    // A length read off the file brings its shape with it.
    assert_eq!(
        choose_workflow(
            None,
            BarsSource::FileLength,
            Some(Workflow::TailFoldback),
            Workflow::Unclear
        ),
        (Workflow::TailFoldback, Workflow::TailFoldback)
    );
    assert_eq!(
        choose_workflow(None, BarsSource::Given, Some(Workflow::TailFoldback), Workflow::Unclear),
        (Workflow::Unclear, Workflow::Unclear)
    );
}

#[test]
fn the_skip_follows_the_workflow_unless_given() {
    assert_eq!(skip_bars(None, Workflow::WarmupRender, 8), 8);
    assert_eq!(skip_bars(None, Workflow::Unclear, 8), 8);
    assert_eq!(skip_bars(None, Workflow::TailFoldback, 8), 0);
    assert_eq!(skip_bars(None, Workflow::AlreadyTrimmed, 8), 0);
    assert_eq!(skip_bars(Some(3), Workflow::WarmupRender, 8), 3);
    assert_eq!(Workflow::WarmupRender.default_skip(4), 4);
}

#[test]
fn a_short_source_is_recorded_rather_than_refused() {
    let e = extent(Region { start: 100, end: 300 }, 250).unwrap();
    assert_eq!((e.loop_frames, e.available, e.short_by), (200, 150, 50));
    assert_eq!(e.loop_frames, e.available + e.short_by);
    let e = extent(Region { start: 100, end: 300 }, 1000).unwrap();
    assert_eq!((e.loop_frames, e.available, e.short_by), (200, 900, 0));
    let e = extent(Region { start: 500, end: 600 }, 100).unwrap();
    assert_eq!((e.available, e.short_by), (0, 100));
}

#[test]
fn the_path_folds_only_a_foldback_with_a_tail() {
    assert_eq!(path(Workflow::TailFoldback, 0), Taken::Foldback);
    assert_eq!(path(Workflow::TailFoldback, 5), Taken::TooShortToFold);
    assert_eq!(path(Workflow::WarmupRender, 0), Taken::StraightCut);
    assert_eq!(path(Workflow::Unclear, 5), Taken::StraightCut);
}

#[test]
fn a_straight_cut_gets_the_micro_fade_and_a_foldback_none() {
    assert_eq!(default_fade(false, false, 44_100).frames, 23);
    assert_eq!(default_fade(false, true, 44_100).frames, 0);
    assert_eq!(default_fade(true, false, 44_100).frames, 0);
}

fn grid_at(bpm: u32) -> Grid {
    Grid::new(
        Tempo::bpm(bpm).unwrap(),
        TimeSignature::four_four(),
        44_100,
    )
}

#[test]
fn without_snap_the_request_is_what_comes_back() {
    let grid = grid_at(103);
    let octave = Ratio::from_octaves(1);
    assert_eq!(resolve_ratio(Some(octave), None, false, 15, &grid, 8), Ok(octave));
    let to_90 = Ratio::from_tempi(Tempo::bpm(103).unwrap(), Tempo::bpm(90).unwrap()).unwrap();
    assert_eq!(resolve_ratio(None, Some(Tempo::bpm(90).unwrap()), false, 15, &grid, 8), Ok(to_90));
    assert_eq!(resolve_ratio(None, None, false, 15, &grid, 8), Ok(Ratio::unity()));
}

#[test]
fn a_snap_lands_on_the_nearest_sample_exact_tempo() {
    // 8 bars of 4/4 at 44.1 kHz are 84 672 000 / BPM samples: 103 does not
    // divide it, 105 does and is nearer than 100.
    let grid = grid_at(103);
    assert!(can_resolve(None, None, true, 15, &grid, 8));
    let r = resolve_ratio(None, None, true, 15, &grid, 8).unwrap();
    let to_105 = Ratio::from_tempi(Tempo::bpm(103).unwrap(), Tempo::bpm(105).unwrap()).unwrap();
    assert_eq!(r, to_105);
    let landed = r.resulting_tempo(Tempo::bpm(103).unwrap()).unwrap();
    assert!(grid_at(105).is_sample_exact(8));
    assert_eq!(landed, Tempo::bpm(105).unwrap());
}

#[test]
fn an_exact_tempo_is_left_alone_by_a_snap() {
    // 8 bars at 90 BPM are exactly 940 800 samples.
    assert_eq!(resolve_ratio(None, None, true, 15, &grid_at(90), 8), Ok(Ratio::unity()));
}

#[test]
fn a_snap_with_nothing_exact_in_reach_is_refused() {
    assert_eq!(
        resolve_ratio(None, None, true, 0, &grid_at(103), 8),
        Err(Error::NoSampleExactTempo { landing: Tempo::bpm(103).unwrap(), window: 0, bars: 8 })
    );
}

#[test]
fn of_two_equally_near_exact_tempos_the_lower_wins() {
    // 102.5 BPM sits halfway between 100 and 105, both exact for 8 bars.
    let source = Tempo::parse("102.5").unwrap();
    let grid = Grid::new(
        source,
        TimeSignature::four_four(),
        44_100,
    );
    let r = resolve_ratio(None, None, true, 15, &grid, 8).unwrap();
    assert_eq!(r, Ratio::from_tempi(source, Tempo::bpm(100).unwrap()).unwrap());
}

#[test]
fn the_command_line_describes_each_workflow() {
    assert_eq!(describe(Workflow::WarmupRender), "warmup render (path A)");
    assert_eq!(describe(Workflow::TailFoldback), "one loop plus tail (path B)");
    assert_eq!(describe(Workflow::AlreadyTrimmed), "already trimmed");
    assert_eq!(describe(Workflow::Unclear), "shape unclear, defaulting to a straight cut");
}

#[test]
fn a_snap_that_cannot_be_exact_lands_on_the_nearest_tempo() {
    let list = vec![96, 98, 100, 105, 108];
    assert_eq!(nearest_tempo(&list, Rational::new(203, 2)), Some(100)); // 101.5
    assert_eq!(nearest_tempo(&list, Rational::new(207, 2)), Some(105)); // 103.5
    // Equally near: the first in the list.
    assert_eq!(nearest_tempo(&list, Rational::from_int(99)), Some(98));
    assert_eq!(nearest_tempo(&list, Rational::from_int(1_000)), Some(108));
    // Zero is no tempo.
    assert_eq!(nearest_tempo(&vec![0, 0], Rational::from_int(1)), None);
    assert_eq!(nearest_tempo(&vec![0, 7], Rational::from_int(1)), Some(7));
    assert_eq!(nearest_tempo(&vec![], Rational::from_int(1)), None);
}

#[test]
fn a_plan_and_a_run_take_their_timing_from_one_place() {
    let g = Grid::new(Tempo::bpm(103).unwrap(), TimeSignature::four_four(), 44_100);
    let args = (8u64, BarsSource::FileLength, None, Some(Workflow::WarmupRender), Workflow::TailFoldback, None);
    assert!(can_plan_cut(&g, args.0, args.1, args.2, args.3, args.4, args.5, Align::Loop));
    let plan = cut_plan(&g, args.0, args.1, args.2, args.3, args.4, args.5, Align::Loop, 1_875_540, None, false).unwrap();
    assert_eq!(plan.detected, Workflow::WarmupRender);
    assert_eq!(plan.chosen, Workflow::WarmupRender);
    assert_eq!(plan.skip_bars, 8);
    assert_eq!(plan.region, Region { start: 822_058, end: 1_644_116 });
    assert_eq!(plan.extent, Extent { loop_frames: 822_058, available: 1_875_540 - 822_058, short_by: 0 });
    assert_eq!(plan.taken, Taken::StraightCut);
    assert_eq!(plan.frames, 822_058);
    assert_eq!(plan.fade, Fade::micro(44_100));
    // The same inputs give the same plan, whichever stage asks.
    assert_eq!(plan, cut_plan(&g, args.0, args.1, args.2, args.3, args.4, args.5, Align::Loop, 1_875_540, None, false).unwrap());

    // A forced foldback of a source that is too short: no skip, no fade.
    let short = cut_plan(&g, 8, BarsSource::Given, Some(Workflow::TailFoldback), None, Workflow::WarmupRender, None,
        Align::Loop, 800_000, Some(Fade::new(100, FadeShape::Linear)), false).unwrap();
    assert_eq!(short.skip_bars, 0);
    assert_eq!(short.region, Region { start: 0, end: 822_058 });
    assert_eq!(short.extent.short_by, 22_058);
    assert_eq!(short.taken, Taken::TooShortToFold);
    assert_eq!(short.frames, 800_000);
    // A fade asked for by length wins over the foldback default.
    assert_eq!(short.fade, Fade::new(100, FadeShape::Linear));
    let off = cut_plan(&g, 8, BarsSource::Given, None, None, Workflow::TailFoldback, Some(0),
        Align::Grid, 822_058, Some(Fade::new(100, FadeShape::Linear)), true).unwrap();
    assert_eq!(off.taken, Taken::Foldback);
    assert_eq!(off.fade.frames, 0);

    // The length after varispeed: unity keeps the cut's frames.
    assert_eq!(output_length(&g, 8, Ratio::unity(), plan.frames), 822_058);
    let to_90 = Ratio::from_tempi(Tempo::bpm(103).unwrap(), Tempo::bpm(90).unwrap()).unwrap();
    assert_eq!(output_length(&g, 8, to_90, plan.frames), 940_800);
}
