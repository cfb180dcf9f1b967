//! The decisions a cut is made of, in the order the pipeline makes them.
//!
//! The pipeline decides, and the caller describes: which tempo, which loop
//! length, which shape, which path, fade or not, dither or not. Each decision
//! is a function of what was measured and what was asked for, so two front
//! ends that ask the same thing get the same answer.
//!
//! The order is binding: cut and foldback in the source's own time domain where
//! the bar grid is exact, then fade, then varispeed, then tape character, then
//! normalize, then dither. Nothing may move after the dither.

use crate::analysis::{skip_model, Workflow};
use crate::error::Error;
use crate::ops::dither::{is_called_for, Dither};
use crate::ops::fade::{Fade, FadeShape};
use crate::rational::{
    canonical, fits, lemma_canonical, product, product_fits, quotient, reciprocal, round_half_up_of,
    value_lt, Rational,
};
use crate::timing::grid::{bar_position, position_fits, Align, Grid, Region};
use crate::timing::speed::{law_fitting_lands_on_the_target_tempo, Ratio};
use crate::timing::tempo::Tempo;
use crate::wav::write::{depth_bits, BitDepth};
use vstd::prelude::*;

verus! {

/// When to dither, as a policy rather than as a mode.
///
/// Distinct from [`Dither`] because `Auto` is a decision that needs the
/// source's bit depth, which the caller does not have to know about.
#[derive(Copy, Clone, Debug, PartialEq, Eq, Structural)]
pub enum DitherPolicy {
    /// Flat TPDF, but only when the bit depth actually drops.
    Auto,
    /// Flat TPDF, always, for integer output.
    Flat,
    /// TPDF plus second-order noise shaping.
    Shaped,
    Off,
}

impl Default for DitherPolicy {
    fn default() -> (p: DitherPolicy)
        ensures
            p == DitherPolicy::Auto,
    {
        DitherPolicy::Auto
    }
}

/// The mode a policy resolves to, going from `source_bits` to `target`.
pub open spec fn resolved(policy: DitherPolicy, source_bits: u16, target: BitDepth) -> Dither {
    match policy {
        DitherPolicy::Off => Dither::Off,
        DitherPolicy::Flat => Dither::Tpdf,
        DitherPolicy::Shaped => Dither::Shaped,
        DitherPolicy::Auto => if target != BitDepth::Float32 && depth_bits(target) < source_bits {
            Dither::Tpdf
        } else {
            Dither::Off
        },
    }
}

impl DitherPolicy {
    /// The mode this policy resolves to for a given source depth. Only `Auto`
    /// consults the depths.
    pub fn resolve(self, source_bits: u16, target: BitDepth) -> (d: Dither)
        ensures
            d == resolved(self, source_bits, target),
    {
        match self {
            DitherPolicy::Off => Dither::Off,
            DitherPolicy::Flat => Dither::Tpdf,
            DitherPolicy::Shaped => Dither::Shaped,
            DitherPolicy::Auto => {
                if is_called_for(source_bits, target) {
                    Dither::Tpdf
                } else {
                    Dither::Off
                }
            },
        }
    }
}

/// `Auto` dithers exactly when the output is integer and holds fewer bits
/// than the source, and then flat; the same depth, a deeper one or float
/// output gets none. The other policies ignore the depths.
pub proof fn law_auto_dithers_only_when_the_depth_drops(source_bits: u16, target: BitDepth)
    ensures
        resolved(DitherPolicy::Auto, source_bits, target) != Dither::Off <==> (target
            != BitDepth::Float32 && depth_bits(target) < source_bits),
        resolved(DitherPolicy::Auto, source_bits, target) != Dither::Shaped,
        depth_bits(target) >= source_bits ==> resolved(DitherPolicy::Auto, source_bits, target)
            == Dither::Off,
        resolved(DitherPolicy::Off, source_bits, target) == Dither::Off,
        resolved(DitherPolicy::Flat, source_bits, target) == Dither::Tpdf,
        resolved(DitherPolicy::Shaped, source_bits, target) == Dither::Shaped,
{
}

/// Whether dither is applied at all: a mode other than off, to integer output.
pub fn dither_applies(mode: Dither, depth: BitDepth) -> (r: bool)
    ensures
        r == (mode != Dither::Off && depth != BitDepth::Float32),
{
    mode != Dither::Off && !depth.is_float()
}

/// Where the tempo came from.
#[derive(Copy, Clone, Debug, PartialEq, Eq, Structural)]
pub enum TempoSource {
    Given,
    AcidChunk,
    Filename,
}

impl TempoSource {
    /// How a report names the source.
    pub fn label(self) -> (s: &'static str)
        ensures
            self == TempoSource::Given ==> s@ == "given"@,
            self == TempoSource::AcidChunk ==> s@ == "from acid chunk"@,
            self == TempoSource::Filename ==> s@ == "from filename"@,
    {
        match self {
            TempoSource::Given => "given",
            TempoSource::AcidChunk => "from acid chunk",
            TempoSource::Filename => "from filename",
        }
    }
}

/// Where the loop length came from.
#[derive(Copy, Clone, Debug, PartialEq, Eq, Structural)]
pub enum BarsSource {
    Given,
    Filename,
    FileLength,
}

impl BarsSource {
    /// How a report qualifies the bar count: nothing when it was given.
    pub fn label(self) -> (s: &'static str)
        ensures
            self == BarsSource::Given ==> s@ == ""@,
            self == BarsSource::Filename ==> s@ == " (from filename)"@,
            self == BarsSource::FileLength ==> s@ == " (from file length)"@,
    {
        match self {
            BarsSource::Given => "",
            BarsSource::Filename => " (from filename)",
            BarsSource::FileLength => " (from file length)",
        }
    }
}

/// How far to take the run.
#[derive(Copy, Clone, Debug, PartialEq, Eq, Structural)]
pub enum Stage {
    /// Everything, audio included.
    Full,
    /// The decisions, and only the cheap operations: cut and fade, but no
    /// resampling, tape character or dither. Everything about timing is the
    /// same either way, because none of it is derived from the samples.
    Plan,
}

impl Default for Stage {
    fn default() -> (s: Stage)
        ensures
            s == Stage::Full,
    {
        Stage::Full
    }
}

/// Which of the two paths was taken.
#[derive(Copy, Clone, Debug, PartialEq, Eq, Structural)]
pub enum Taken {
    /// A straight cut; the tail was discarded.
    StraightCut,
    /// The tail was folded back onto the loop.
    Foldback,
    /// A foldback was asked for but the source was too short to have a tail.
    TooShortToFold,
}

/// The first of the candidates that is there, in order of precedence.
pub open spec fn first_tempo(
    given: Option<Tempo>,
    from_name: Option<Tempo>,
    from_acid: Option<Tempo>,
    prefer_name: bool,
) -> Option<(Tempo, TempoSource)> {
    if given is Some {
        Some((given->0, TempoSource::Given))
    } else if prefer_name {
        if from_name is Some {
            Some((from_name->0, TempoSource::Filename))
        } else if from_acid is Some {
            Some((from_acid->0, TempoSource::AcidChunk))
        } else {
            None
        }
    } else {
        if from_acid is Some {
            Some((from_acid->0, TempoSource::AcidChunk))
        } else if from_name is Some {
            Some((from_name->0, TempoSource::Filename))
        } else {
            None
        }
    }
}

/// The tempo, and where it came from.
///
/// A given tempo wins, then whichever of the two file sources `prefer_name`
/// puts first. A file that declares a tempo in its `acid` chunk is believed
/// over a name that might just hold a date, unless asked otherwise.
pub fn resolve_tempo(
    given: Option<Tempo>,
    from_name: Option<Tempo>,
    from_acid: Option<Tempo>,
    prefer_name: bool,
) -> (r: Result<(Tempo, TempoSource), Error>)
    ensures
        first_tempo(given, from_name, from_acid, prefer_name) matches Some(t) ==> r == Ok::<
            (Tempo, TempoSource),
            Error,
        >(t),
        first_tempo(given, from_name, from_acid, prefer_name) is None ==> r == Err::<
            (Tempo, TempoSource),
            Error,
        >(Error::NoTempo),
{
    let (first, second) = if prefer_name {
        ((from_name, TempoSource::Filename), (from_acid, TempoSource::AcidChunk))
    } else {
        ((from_acid, TempoSource::AcidChunk), (from_name, TempoSource::Filename))
    };
    match given {
        Some(t) => Ok((t, TempoSource::Given)),
        None => match first.0 {
            Some(t) => Ok((t, first.1)),
            None => match second.0 {
                Some(t) => Ok((t, second.1)),
                None => Err(Error::NoTempo),
            },
        },
    }
}

/// The loop length: the parameter wins, then the filename if it was
/// consulted, then the file's own duration.
pub open spec fn first_length(given: Option<u64>, from_name: Option<u64>, from_length: Option<u64>) -> Option<
    (u64, BarsSource),
> {
    if given is Some {
        Some((given->0, BarsSource::Given))
    } else if from_name is Some {
        Some((from_name->0, BarsSource::Filename))
    } else if from_length is Some {
        Some((from_length->0, BarsSource::FileLength))
    } else {
        None
    }
}

/// The loop length in bars, and where it came from.
///
/// No fixed default: 8 bars is right for one render and wrong for most
/// others, so with nothing to go on the answer is an error.
pub fn resolve_bars(given: Option<u64>, from_name: Option<u64>, from_length: Option<u64>) -> (r: Result<
    (u64, BarsSource),
    Error,
>)
    ensures
        first_length(given, from_name, from_length) matches Some(b) ==> r == Ok::<
            (u64, BarsSource),
            Error,
        >(b),
        first_length(given, from_name, from_length) is None ==> r == Err::<(u64, BarsSource), Error>(
            Error::NoLoopLength,
        ),
{
    match (given, from_name, from_length) {
        (Some(b), _, _) => Ok((b, BarsSource::Given)),
        (None, Some(b), _) => Ok((b, BarsSource::Filename)),
        (None, None, Some(b)) => Ok((b, BarsSource::FileLength)),
        (None, None, None) => Err(Error::NoLoopLength),
    }
}

/// The shape read off the file, and the shape acted on.
///
/// When the loop length came from the file's own duration, the shape comes
/// from that same reading, so the two cannot disagree; otherwise from the
/// shape measured against the length. A forced workflow is acted on, and the
/// detected one is kept beside it so a report can say they differ.
pub fn choose_workflow(
    forced: Option<Workflow>,
    bars_source: BarsSource,
    length_shape: Option<Workflow>,
    measured: Workflow,
) -> (r: (Workflow, Workflow))
    ensures
        r.0 == (if bars_source == BarsSource::FileLength && length_shape is Some {
            length_shape->0
        } else {
            measured
        }),
        r.1 == (match forced {
            Some(w) => w,
            None => r.0,
        }),
{
    let detected = match (bars_source, length_shape) {
        (BarsSource::FileLength, Some(w)) => w,
        _ => measured,
    };
    let chosen = match forced {
        Some(w) => w,
        None => detected,
    };
    (detected, chosen)
}

/// Warmup bars to skip: the parameter when given, else what the chosen
/// workflow implies.
pub fn skip_bars(skip: Option<u64>, chosen: Workflow, bars: u64) -> (r: u64)
    ensures
        r == (match skip {
            Some(s) => s,
            None => skip_model(chosen, bars),
        }),
{
    match skip {
        Some(s) => s,
        None => chosen.default_skip(bars),
    }
}

/// How a cut region sits in a source of `source_frames` frames.
#[derive(Copy, Clone, Debug, PartialEq, Eq, Structural)]
pub struct Extent {
    /// Frames the loop needs.
    pub loop_frames: usize,
    /// Frames the file actually offers from the cut-in point.
    pub available: usize,
    /// How far short the source falls. Zero on a source long enough.
    pub short_by: usize,
}

/// The frames `region` needs, what a source of `source_frames` frames offers
/// from its start, and how far short it falls.
///
/// A source too short to fill the loop is recorded, not refused: the caller
/// decides what that means. A loop longer than this machine can index is
/// refused.
pub fn extent(region: Region, source_frames: usize) -> (r: Result<Extent, Error>)
    requires
        region.start <= region.end,
    ensures
        region.end - region.start > usize::MAX ==> r == Err::<Extent, Error>(
            Error::LoopTooLong((region.end - region.start) as u64),
        ),
        region.end - region.start <= usize::MAX ==> (r matches Ok(e) && e.loop_frames == region.end
            - region.start && e.available == (if source_frames >= region.start {
            source_frames - region.start
        } else {
            0
        }) && e.short_by == (if e.loop_frames >= e.available {
            e.loop_frames - e.available
        } else {
            0
        })),
{
    let len = region.len();
    if len > usize::MAX as u64 {
        return Err(Error::LoopTooLong(len));
    }
    let loop_frames = len as usize;
    let available: usize = if source_frames as u64 >= region.start {
        (source_frames as u64 - region.start) as usize
    } else {
        0
    };
    let short_by: usize = if loop_frames >= available {
        loop_frames - available
    } else {
        0
    };
    Ok(Extent { loop_frames, available, short_by })
}

/// The path a cut takes.
///
/// The two paths are never combined: a warmup render already contains the
/// settled state, so folding its tail in would add the reverb twice. A source
/// too short to fill the loop has no tail to fold.
pub fn path(chosen: Workflow, short_by: usize) -> (t: Taken)
    ensures
        t == (if chosen != Workflow::TailFoldback {
            Taken::StraightCut
        } else if short_by == 0 {
            Taken::Foldback
        } else {
            Taken::TooShortToFold
        }),
{
    if chosen != Workflow::TailFoldback {
        Taken::StraightCut
    } else if short_by == 0 {
        Taken::Foldback
    } else {
        Taken::TooShortToFold
    }
}

/// The fade when no length was asked for: none when fades are off or the
/// loop was folded back, else the micro-fade.
///
/// A foldback loop is circular by construction, and fading both ends to zero
/// would undo exactly the continuity it computed. A straight cut has no such
/// guarantee: its boundaries fall wherever the bar grid says.
pub fn default_fade(no_fade: bool, folded: bool, sample_rate: u32) -> (f: Fade)
    ensures
        (no_fade || folded) ==> f == (Fade { frames: 0, shape: FadeShape::Cosine }),
        !(no_fade || folded) ==> f.frames == (sample_rate as int + 1999) / 2000 && f.shape
            == FadeShape::Cosine,
{
    if no_fade || folded {
        Fade::new(0, FadeShape::Cosine)
    } else {
        Fade::micro(sample_rate)
    }
}


/// What [`extent`] gives for `region` in a source of `source_frames` frames.
pub open spec fn extent_of(region: Region, source_frames: usize) -> Result<Extent, Error> {
    let len = region.end - region.start;
    if len > usize::MAX {
        Err(Error::LoopTooLong(len as u64))
    } else {
        let available: int = if source_frames >= region.start {
            source_frames - region.start
        } else {
            0
        };
        Ok(
            Extent {
                loop_frames: len as usize,
                available: available as usize,
                short_by: (if len >= available {
                    len - available
                } else {
                    0
                }) as usize,
            },
        )
    }
}

/// The workflow read off the file and the one acted on, as
/// [`choose_workflow`] picks them.
pub open spec fn workflows(
    forced: Option<Workflow>,
    bars_source: BarsSource,
    length_shape: Option<Workflow>,
    measured: Workflow,
) -> (Workflow, Workflow) {
    let detected = if bars_source == BarsSource::FileLength && length_shape is Some {
        length_shape->0
    } else {
        measured
    };
    (
        detected,
        match forced {
            Some(w) => w,
            None => detected,
        },
    )
}

/// Bars skipped: what was asked for, else what the workflow skips.
pub open spec fn skip_of(skip: Option<u64>, chosen: Workflow, bars: u64) -> u64 {
    match skip {
        Some(s) => s,
        None => skip_model(chosen, bars),
    }
}

/// The path [`path`] takes.
pub open spec fn taken_of(chosen: Workflow, short_by: usize) -> Taken {
    if chosen != Workflow::TailFoldback {
        Taken::StraightCut
    } else if short_by == 0 {
        Taken::Foldback
    } else {
        Taken::TooShortToFold
    }
}

/// The fade: one asked for by length wins unless fades are off; otherwise
/// none for a folded loop or with fades off, else the micro-fade.
pub open spec fn fade_of(asked: Option<Fade>, no_fade: bool, folded: bool, sample_rate: u32) -> Fade {
    match asked {
        Some(f) if !no_fade => f,
        _ => if no_fade || folded {
            Fade { frames: 0, shape: FadeShape::Cosine }
        } else {
            Fade { frames: ((sample_rate as int + 1999) / 2000) as usize, shape: FadeShape::Cosine }
        },
    }
}

/// Everything about a cut that is timing: the same whether the run is only
/// planned or carried out.
#[derive(Copy, Clone, Debug, PartialEq)]
pub struct CutPlan {
    /// The workflow read off the file.
    pub detected: Workflow,
    /// The workflow acted on.
    pub chosen: Workflow,
    pub skip_bars: u64,
    /// The region cut, in source samples.
    pub region: Region,
    /// What the loop needs, what the source offers, and the shortfall.
    pub extent: Extent,
    /// Straight cut or foldback.
    pub taken: Taken,
    /// Frames of the loop as cut or folded: what the loop needs less what the
    /// source falls short by.
    pub frames: usize,
    /// The fade both ends get.
    pub fade: Fade,
}

/// The skip a cut plan uses.
pub open spec fn plan_skip(
    forced: Option<Workflow>,
    bars_source: BarsSource,
    length_shape: Option<Workflow>,
    measured: Workflow,
    skip: Option<u64>,
    bars: u64,
) -> u64 {
    skip_of(skip, workflows(forced, bars_source, length_shape, measured).1, bars)
}

/// The cut plan for `bars` bars on `grid`, from the measured shapes and the
/// asked-for settings.
pub open spec fn cut_plan_of(
    grid: Grid,
    bars: u64,
    bars_source: BarsSource,
    forced: Option<Workflow>,
    length_shape: Option<Workflow>,
    measured: Workflow,
    skip: Option<u64>,
    align: Align,
    source_frames: usize,
    asked_fade: Option<Fade>,
    no_fade: bool,
) -> Result<CutPlan, Error> {
    let (detected, chosen) = workflows(forced, bars_source, length_shape, measured);
    let s = skip_of(skip, chosen, bars);
    let region = grid.region_model(s as int, bars as int, align);
    match extent_of(region, source_frames) {
        Err(e) => Err(e),
        Ok(x) => Ok(
            CutPlan {
                detected,
                chosen,
                skip_bars: s,
                region,
                extent: x,
                taken: taken_of(chosen, x.short_by),
                frames: (x.loop_frames - x.short_by) as usize,
                fade: fade_of(asked_fade, no_fade, chosen == Workflow::TailFoldback, grid.sample_rate),
            },
        ),
    }
}

/// The region a cut plan cuts can be placed, and does not end before it
/// starts.
pub open spec fn plan_fits(
    grid: Grid,
    bars: u64,
    bars_source: BarsSource,
    forced: Option<Workflow>,
    length_shape: Option<Workflow>,
    measured: Workflow,
    skip: Option<u64>,
    align: Align,
) -> bool {
    let s = plan_skip(forced, bars_source, length_shape, measured, skip, bars);
    &&& grid.region_fits(s as int, bars as int, align)
    &&& grid.region_model(s as int, bars as int, align).start <= grid.region_model(
        s as int,
        bars as int,
        align,
    ).end
}

/// Tests, before [`cut_plan`] is called, that its region can be placed.
pub fn can_plan_cut(
    grid: &Grid,
    bars: u64,
    bars_source: BarsSource,
    forced: Option<Workflow>,
    length_shape: Option<Workflow>,
    measured: Workflow,
    skip: Option<u64>,
    align: Align,
) -> (r: bool)
    ensures
        r == plan_fits(*grid, bars, bars_source, forced, length_shape, measured, skip, align),
{
    let (_, chosen) = choose_workflow(forced, bars_source, length_shape, measured);
    let s = skip_bars(skip, chosen, bars);
    if !grid.can_cut(s, bars, align) {
        return false;
    }
    let region = grid.region(s, bars, align);
    region.start <= region.end
}

/// The timing of a cut, decided once from what was measured: which
/// workflow, how many bars skipped, the region, what the source offers, the
/// path and the fade. A plan and a full run both take it from here, so they
/// agree on every one of these.
pub fn cut_plan(
    grid: &Grid,
    bars: u64,
    bars_source: BarsSource,
    forced: Option<Workflow>,
    length_shape: Option<Workflow>,
    measured: Workflow,
    skip: Option<u64>,
    align: Align,
    source_frames: usize,
    asked_fade: Option<Fade>,
    no_fade: bool,
) -> (r: Result<CutPlan, Error>)
    requires
        plan_fits(*grid, bars, bars_source, forced, length_shape, measured, skip, align),
    ensures
        r == cut_plan_of(
            *grid,
            bars,
            bars_source,
            forced,
            length_shape,
            measured,
            skip,
            align,
            source_frames,
            asked_fade,
            no_fade,
        ),
{
    let (detected, chosen) = choose_workflow(forced, bars_source, length_shape, measured);
    let s = skip_bars(skip, chosen, bars);
    let region = grid.region(s, bars, align);
    let x = match extent(region, source_frames) {
        Ok(x) => x,
        Err(e) => {
            return Err(e);
        },
    };
    let taken = path(chosen, x.short_by);
    let fade = match asked_fade {
        Some(f) if !no_fade => f,
        _ => default_fade(no_fade, chosen == Workflow::TailFoldback, grid.sample_rate),
    };
    let frames = x.loop_frames - x.short_by;
    Ok(CutPlan { detected, chosen, skip_bars: s, region, extent: x, taken, frames, fade })
}

/// Frames of the finished loop after an exact varispeed of `ratio`: the cut
/// loop's own frames at unity, else `bars` bars at the new speed, rounded
/// once from the exact bar arithmetic.
pub fn output_length(grid: &Grid, bars: u64, ratio: Ratio, frames: usize) -> (r: u64)
    requires
        ratio@ != (1int, 1int) ==> grid.fits(bars as int) && product_fits(
            grid.position(bars as int),
            reciprocal(ratio@),
        ),
    ensures
        ratio@ == (1int, 1int) ==> r == frames,
        ratio@ != (1int, 1int) ==> r == round_half_up_of(
            quotient(grid.position(bars as int), ratio@),
        ) as u64,
{
    if ratio.is_unity() {
        frames as u64
    } else {
        grid.resampled_length(bars, ratio)
    }
}

/// The ratio a request names before any snapping: an explicit ratio wins,
/// then the one that lands on the target tempo, then unity.
pub open spec fn requested(ratio: Option<Ratio>, target: Option<Tempo>, source: Tempo) -> (int, int) {
    match ratio {
        Some(r) => r@,
        None => match target {
            Some(t) => quotient(t@.0, source@.0),
            None => (1, 1),
        },
    }
}

/// The BPM value the requested varispeed lands on.
pub open spec fn landing_bpm(ratio: Option<Ratio>, target: Option<Tempo>, source: Tempo) -> (int, int) {
    product(source@.0, requested(ratio, target, source))
}

/// The lowest integer BPM searched around `l`: `round(l) - window`, at least 1.
pub open spec fn window_low(l: (int, int), window: int) -> int {
    let c = round_half_up_of(l);
    if c - window > 1 {
        c - window
    } else {
        1
    }
}

/// The highest integer BPM searched around `l`: `round(l) + window`.
pub open spec fn window_high(l: (int, int), window: int) -> int {
    round_half_up_of(l) + window
}

/// How far integer BPM `b` is from `l = p/q`, scaled by `q`: `|b·q − p|`.
pub open spec fn gap(b: int, l: (int, int)) -> int {
    let d = b * l.1 - l.0;
    if d < 0 {
        -d
    } else {
        d
    }
}

/// `b` is strictly nearer to `l` than `c` is.
pub open spec fn nearer(b: int, c: int, l: (int, int)) -> bool {
    gap(b, l) < gap(c, l)
}

/// Of the tempos in `list` that are tempos at all, the one nearest to
/// `landing`, the earliest of those equally near: `at` is its place.
pub open spec fn nearest_at(list: Seq<u32>, l: (int, int), at: int) -> bool {
    &&& 0 <= at < list.len()
    &&& list[at] > 0
    &&& forall|i: int| 0 <= i < list.len() && #[trigger] list[i] > 0 ==> gap(list[at] as int, l) <= gap(list[i] as int, l)
    &&& forall|i: int| 0 <= i < at && #[trigger] list[i] > 0 ==> nearer(list[at] as int, list[i] as int, l)
}

/// Whether the whole tempo `b` is strictly nearer to `l` than `c` is: for
/// `b < c` exactly when `l` lies below their midpoint, for `b > c` when it
/// lies above.
fn is_nearer(b: u32, c: u32, l: Rational) -> (r: bool)
    requires
        l.wf(),
    ensures
        r == nearer(b as int, c as int, l@),
{
    if b == c {
        return false;
    }
    let mid = Rational::new((b as i128) + (c as i128), 2);
    let ghost p = l@.0;
    let ghost q = l@.1;
    proof {
        lemma_canonical((b + c) as int, 2);
        let m = mid@;
        assert(m.0 * 2 == (b + c) * m.1);
        assert(value_lt(l@, m) <==> 2 * p < (b + c) * q) by (nonlinear_arith)
            requires
                m.0 * 2 == (b + c) * m.1,
                m.1 > 0,
                q > 0,
                value_lt(l@, m) <==> p * m.1 < m.0 * q,
        ;
        assert(value_lt(m, l@) <==> (b + c) * q < 2 * p) by (nonlinear_arith)
            requires
                m.0 * 2 == (b + c) * m.1,
                m.1 > 0,
                q > 0,
                value_lt(m, l@) <==> m.0 * q < p * m.1,
        ;
        let x = b * q - p;
        let y = c * q - p;
        assert(b < c ==> (nearer(b as int, c as int, l@) <==> 2 * p < (b + c) * q)) by (nonlinear_arith)
            requires
                x == b * q - p,
                y == c * q - p,
                gap(b as int, l@) == (if x < 0 { -x } else { x }),
                gap(c as int, l@) == (if y < 0 { -y } else { y }),
                nearer(b as int, c as int, l@) <==> gap(b as int, l@) < gap(c as int, l@),
                q > 0,
        ;
        assert(b > c ==> (nearer(b as int, c as int, l@) <==> (b + c) * q < 2 * p)) by (nonlinear_arith)
            requires
                x == b * q - p,
                y == c * q - p,
                gap(b as int, l@) == (if x < 0 { -x } else { x }),
                gap(c as int, l@) == (if y < 0 { -y } else { y }),
                nearer(b as int, c as int, l@) <==> gap(b as int, l@) < gap(c as int, l@),
                q > 0,
        ;
    }
    if b < c {
        l.is_less_than(mid)
    } else {
        mid.is_less_than(l)
    }
}

/// Of the whole tempos in `list` (a zero is no tempo), the one nearest to
/// `landing`, the first of those equally near: where a snap that cannot be
/// computed exactly lands.
pub fn nearest_tempo(list: &Vec<u32>, landing: Rational) -> (r: Option<u32>)
    requires
        landing.wf(),
    ensures
        r matches Some(b) ==> exists|at: int| nearest_at(list@, landing@, at) && list@[at] == b,
        r is None ==> forall|i: int| 0 <= i < list.len() ==> list@[i] == 0,
{
    let mut best: Option<usize> = None;
    let mut i: usize = 0;
    while i < list.len()
        invariant
            i <= list.len(),
            landing.wf(),
            match best {
                Some(at) => at < i && list@[at as int] > 0 && (forall|j: int|
                    0 <= j < i && #[trigger] list@[j] > 0 ==> gap(list@[at as int] as int, landing@)
                        <= gap(list@[j] as int, landing@)) && (forall|j: int|
                    0 <= j < at && #[trigger] list@[j] > 0 ==> nearer(
                        list@[at as int] as int,
                        list@[j] as int,
                        landing@,
                    )),
                None => forall|j: int| 0 <= j < i ==> list@[j] == 0,
            },
        decreases list.len() - i,
    {
        let b = list[i];
        if b > 0 {
            match best {
                None => {
                    best = Some(i);
                },
                Some(at) => {
                    if is_nearer(b, list[at], landing) {
                        best = Some(i);
                    }
                },
            }
        }
        i = i + 1;
    }
    match best {
        Some(at) => {
            proof {
                assert(nearest_at(list@, landing@, at as int));
            }
            Some(list[at])
        },
        None => None,
    }
}

/// An integer BPM in the window around `l` at which `bars` bars on `grid`'s
/// meter, unit and rate are a whole number of samples.
pub open spec fn exact_candidate(grid: Grid, bars: int, l: (int, int), window: int, c: int) -> bool {
    &&& window_low(l, window) <= c <= window_high(l, window)
    &&& c <= u32::MAX
    &&& grid.exact_at(c, bars)
}

/// `b` is where a snap lands: an exact candidate, as near to `l` as any, and
/// the lowest of those equally near.
pub open spec fn snaps_to(grid: Grid, bars: int, l: (int, int), window: int, b: int) -> bool {
    &&& exact_candidate(grid, bars, l, window, b)
    &&& forall|c: int|
        #[trigger] exact_candidate(grid, bars, l, window, c) ==> gap(b, l) <= gap(c, l) && (c < b
            ==> gap(b, l) < gap(c, l))
}

/// Every step of resolving the request stays within `i128`.
pub open spec fn resolvable(
    ratio: Option<Ratio>,
    target: Option<Tempo>,
    snap: bool,
    window: u32,
    grid: Grid,
    bars: u64,
) -> bool {
    let source = grid.tempo;
    let l = landing_bpm(ratio, target, source);
    &&& (ratio is None && target is Some) ==> product_fits(target->0@.0, reciprocal(source@.0))
    &&& snap ==> {
        &&& product_fits(source@.0, requested(ratio, target, source))
        &&& position_fits(l, grid.unit(), grid.sig, grid.sample_rate as int, bars as int)
        &&& round_half_up_of(l) + window <= i128::MAX
        &&& forall|c: int|
            window_low(l, window as int) <= c <= window_high(l, window as int) ==> #[trigger] grid.fits_at(
                c,
                bars as int,
            ) && fits(c * l.1) && fits(c * l.1 - l.0) && product_fits((c, 1), reciprocal(source@.0))
    }
}

/// `|b·q − p|`.
fn gap_of(b: u32, p: i128, q: i128) -> (r: i128)
    requires
        b >= 1,
        q >= 1,
        fits(b * q),
        fits(b * q - p),
    ensures
        r == gap(b as int, (p as int, q as int)),
{
    let d = (b as i128) * q - p;
    if d < 0 {
        -d
    } else {
        d
    }
}

/// The varispeed before snapping.
fn wanted_ratio(ratio: Option<Ratio>, target: Option<Tempo>, source: Tempo) -> (r: Ratio)
    requires
        (ratio is None && target is Some) ==> product_fits(target->0@.0, reciprocal(source@.0)),
    ensures
        r@ == requested(ratio, target, source),
{
    match ratio {
        Some(r) => r,
        None => match target {
            Some(t) => match Ratio::from_tempi(source, t) {
                Ok(x) => x,
                Err(_) => Ratio::unity(),
            },
            None => Ratio::unity(),
        },
    }
}

/// Whether resolving the request stays within `i128` at every step.
#[verifier::spinoff_prover]
pub fn can_resolve(
    ratio: Option<Ratio>,
    target: Option<Tempo>,
    snap: bool,
    window: u32,
    grid: &Grid,
    bars: u64,
) -> (r: bool)
    ensures
        r == resolvable(ratio, target, snap, window, *grid, bars),
{
    let source = grid.tempo;
    let s = source.value();
    let inv = s.recip();
    if ratio.is_none() {
        if let Some(t) = target {
            if !t.value().fits_times(inv) {
                return false;
            }
        }
    }
    if !snap {
        return true;
    }
    let wanted = wanted_ratio(ratio, target, source);
    if !s.fits_times(wanted.as_rational()) {
        return false;
    }
    let landing = match wanted.resulting_tempo(source) {
        Ok(t) => t,
        Err(_) => {
            return false;
        },
    };
    let near = Grid { tempo: landing, ..*grid };
    let ghost lz = landing_bpm(ratio, target, grid.tempo);
    proof {
        assert(landing@.0 == lz);
        assert(near.bpm() == lz);
        assert(near.unit() == grid.unit());
    }
    if !near.can_place(bars) {
        return false;
    }
    let l = landing.value();
    let (p, q) = (l.num(), l.den());
    let c0 = l.round_half_up();
    if c0 > i128::MAX - (window as i128) {
        return false;
    }
    let lo: i128 = if c0 - (window as i128) > 1 {
        c0 - (window as i128)
    } else {
        1
    };
    let hi: i128 = c0 + (window as i128);
    let ghost lv = l@;
    let unit = landing.unit();
    if lo > hi {
        return true;
    }
    let mut c: i128 = lo;
    loop
        invariant_except_break
            lo <= c <= hi,
            forall|k: int|
                lo <= k < c ==> #[trigger] grid.fits_at(k, bars as int) && fits(k * lv.1) && fits(
                    k * lv.1 - lv.0,
                ) && product_fits((k, 1), reciprocal(source@.0)),
        invariant
            lo == window_low(lv, window as int),
            hi == window_high(lv, window as int),
            lo >= 1,
            lv == (p as int, q as int),
            q >= 1,
            lv == l@,
            unit.value() == grid.unit(),
            inv@ == reciprocal(source@.0),
            inv.wf(),
            source == grid.tempo,
            lv == landing_bpm(ratio, target, grid.tempo),
            snap,
        ensures
            forall|k: int|
                lo <= k <= hi ==> #[trigger] grid.fits_at(k, bars as int) && fits(k * lv.1) && fits(
                    k * lv.1 - lv.0,
                ) && product_fits((k, 1), reciprocal(source@.0)),
        decreases hi - c,
    {
        let t = match Tempo::new(Rational::from_int(c), unit) {
            Ok(t) => t,
            Err(_) => {
                return false;
            },
        };
        let at = Grid { tempo: t, ..*grid };
        if !at.can_place(bars) {
            proof {
                assert(!grid.fits_at(c as int, bars as int));
            }
            return false;
        }
        let m = match c.checked_mul(q) {
            Some(m) => m,
            None => {
                proof {
                    assert(grid.fits_at(c as int, bars as int));
                    assert(!fits(c * lv.1));
                }
                return false;
            },
        };
        if m.checked_sub(p).is_none() {
            proof {
                assert(grid.fits_at(c as int, bars as int));
                assert(!fits(c * lv.1 - lv.0));
            }
            return false;
        }
        if !Rational::from_int(c).fits_times(inv) {
            proof {
                assert(grid.fits_at(c as int, bars as int));
                assert(!product_fits((c as int, 1), reciprocal(source@.0)));
            }
            return false;
        }
        proof {
            assert(grid.fits_at(c as int, bars as int));
        }
        if c == hi {
            break;
        }
        c = c + 1;
    }
    proof {
        assert(position_fits(lz, grid.unit(), grid.sig, grid.sample_rate as int, bars as int));
        assert(round_half_up_of(lz) + window <= i128::MAX);
        assert(product_fits(source@.0, requested(ratio, target, source)));
        assert((ratio is None && target is Some) ==> product_fits(target->0@.0, reciprocal(source@.0)));
        assert(forall|k: int|
            window_low(lz, window as int) <= k <= window_high(lz, window as int) ==> #[trigger] grid.fits_at(k, bars as int) && fits(k * lz.1) && fits(
                k * lz.1 - lz.0,
            ) && product_fits((k, 1), reciprocal(source@.0)));
        assert(snap);
        assert(resolvable(ratio, target, snap, window, *grid, bars));
    }
    true
}

/// The varispeed a request resolves to.
///
/// Without `snap`, what was asked for: an explicit ratio, else the one that
/// lands on the target tempo, else unity. With `snap`, the resulting tempo is
/// nudged to the nearest integer BPM within `window` of where the varispeed
/// lands at which the loop is a whole number of samples — the lowest of two
/// equally near — unless it is exact already. An explicit snap that finds
/// nothing is refused rather than quietly ignored.
pub fn resolve_ratio(
    ratio: Option<Ratio>,
    target: Option<Tempo>,
    snap: bool,
    window: u32,
    grid: &Grid,
    bars: u64,
) -> (r: Result<Ratio, Error>)
    requires
        resolvable(ratio, target, snap, window, *grid, bars),
    ensures
        !snap ==> (r matches Ok(x) && x@ == requested(ratio, target, grid.tempo)),
        snap && bar_position(
            landing_bpm(ratio, target, grid.tempo),
            grid.unit(),
            grid.sig,
            grid.sample_rate as int,
            bars as int,
        ).1 == 1 ==> (r matches Ok(x) && x@ == requested(ratio, target, grid.tempo)),
        snap && bar_position(
            landing_bpm(ratio, target, grid.tempo),
            grid.unit(),
            grid.sig,
            grid.sample_rate as int,
            bars as int,
        ).1 != 1 ==> {
            let l = landing_bpm(ratio, target, grid.tempo);
            &&& (forall|c: int| !exact_candidate(*grid, bars as int, l, window as int, c)) ==> (r matches Err(
                Error::NoSampleExactTempo { landing, window: w, bars: n },
            ) && landing@ == (l, grid.unit()) && w == window && n == bars)
            &&& (exists|c: int| exact_candidate(*grid, bars as int, l, window as int, c)) ==> (r matches Ok(
                x,
            ) && exists|b: int|
                snaps_to(*grid, bars as int, l, window as int, b) && x@ == quotient(
                    (b, 1),
                    grid.tempo@.0,
                ))
        },
        snap ==> (r matches Ok(x) ==> bar_position(
            product(grid.tempo@.0, x@),
            grid.unit(),
            grid.sig,
            grid.sample_rate as int,
            bars as int,
        ).1 == 1),
{
    let source = grid.tempo;
    // Read for what it establishes: the source BPM is a reduced fraction.
    let _bpm = source.value();
    let wanted = wanted_ratio(ratio, target, source);
    if !snap {
        return Ok(wanted);
    }
    let landing = match wanted.resulting_tempo(source) {
        Ok(t) => t,
        Err(e) => {
            return Err(e);
        },
    };
    let near = Grid { tempo: landing, ..*grid };
    let ghost l = landing_bpm(ratio, target, source);
    proof {
        assert(near.bpm() == l);
        assert(near.unit() == grid.unit());
        assert forall|c: int| #[trigger]
            near.bpm_window(window as int).0 <= c <= near.bpm_window(window as int).1 implies near.fits_at(
            c,
            bars as int,
        ) by {
            assert(grid.fits_at(c, bars as int));
        }
    }
    if near.is_sample_exact(bars) {
        return Ok(wanted);
    }
    let list = near.sample_exact_bpms(bars, window);
    if list.len() == 0 {
        proof {
            assert forall|c: int| !exact_candidate(*grid, bars as int, l, window as int, c) by {
                if exact_candidate(*grid, bars as int, l, window as int, c) {
                    assert(near.exact_at(c, bars as int));
                    assert(list@.contains(c as u32));
                }
            }
        }
        return Err(Error::NoSampleExactTempo { landing, window, bars });
    }
    let lv = landing.value();
    let (p, q) = (lv.num(), lv.den());
    proof {
        assert(list@[0] >= window_low(l, window as int));
        assert(grid.fits_at(list@[0] as int, bars as int));
    }
    let mut best: usize = 0;
    let mut best_gap: i128 = gap_of(list[0], p, q);
    let mut k: usize = 1;
    while k < list.len()
        invariant
            1 <= k <= list.len(),
            best < k,
            near.lists_exact_bpms(
                list@,
                near.bpm_window(window as int).0,
                near.bpm_window(window as int).1 + 1,
                bars as int,
            ),
            l == (p as int, q as int),
            q >= 1,
            near.bpm() == l,
            near.unit() == grid.unit(),
            near.sig == grid.sig,
            near.sample_rate == grid.sample_rate,
            resolvable(ratio, target, snap, window, *grid, bars),
            snap,
            l == landing_bpm(ratio, target, grid.tempo),
            best_gap == gap(list@[best as int] as int, l),
            forall|j: int| 0 <= j < k ==> best_gap <= gap(#[trigger] list@[j] as int, l),
            forall|j: int| 0 <= j < best ==> best_gap < gap(#[trigger] list@[j] as int, l),
        decreases list.len() - k,
    {
        proof {
            assert(grid.fits_at(list@[k as int] as int, bars as int));
        }
        let g = gap_of(list[k], p, q);
        if g < best_gap {
            best = k;
            best_gap = g;
        }
        k = k + 1;
    }
    let b = list[best];
    let chosen = match Tempo::bpm(b) {
        Ok(t) => t,
        Err(e) => {
            return Err(e);
        },
    };
    proof {
        assert(grid.fits_at(b as int, bars as int));
        assert(snaps_to(*grid, bars as int, l, window as int, b as int)) by {
            assert forall|c: int| #[trigger]
                exact_candidate(*grid, bars as int, l, window as int, c) implies gap(b as int, l)
                <= gap(c, l) && (c < b ==> gap(b as int, l) < gap(c, l)) by {
                assert(near.exact_at(c, bars as int));
                assert(list@.contains(c as u32));
                let j = choose|j: int| 0 <= j < list@.len() && list@[j] == c as u32;
                assert(best_gap <= gap(list@[j] as int, l));
                if c < b {
                    if j >= best {
                        if j > best {
                            assert(list@[best as int] < list@[j]);
                        }
                    }
                    assert(j < best);
                }
            }
        }
        crate::rational::lemma_gcd_one(b as nat);
        law_fitting_lands_on_the_target_tempo(source@.0, (b as int, 1));
    }
    Ratio::from_tempi(source, chosen)
}
} // verus!
