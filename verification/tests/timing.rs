use loopslcr::timing::grid::nearest_either_side;
use loopslcr::timing::note::{length, table, DENOMINATORS};
use loopslcr::timing::{
    Align, BpmUnit, Flavour, Grid, NoteValue, Ratio, Region, Tempo, TimeSignature,
};
use loopslcr::{Error, Rational};

fn grid(bpm: u32, sig: &str, sr: u32) -> Grid {
    Grid::new(Tempo::bpm(bpm).unwrap(), sig.parse().unwrap(), sr)
}

// ---- time signatures and units ----

#[test]
fn parses_signatures() {
    assert_eq!("7/8".parse::<TimeSignature>().unwrap(), TimeSignature { num: 7, den: 8 });
    assert_eq!(" 3 / 4 ".parse::<TimeSignature>().unwrap(), TimeSignature { num: 3, den: 4 });
    assert!("4".parse::<TimeSignature>().is_err());
    assert!("0/4".parse::<TimeSignature>().is_err());
    assert!("4/0".parse::<TimeSignature>().is_err());
    assert!("-4/4".parse::<TimeSignature>().is_err());
    assert!("x/4".parse::<TimeSignature>().is_err());
}

#[test]
fn parses_bpm_units() {
    assert_eq!("1/4".parse::<BpmUnit>().unwrap(), BpmUnit::quarter());
    assert_eq!("3/8".parse::<BpmUnit>().unwrap(), BpmUnit::dotted_quarter());
    // Normalised, so 2/8 and 1/4 are the same unit.
    assert_eq!("2/8".parse::<BpmUnit>().unwrap(), BpmUnit::quarter());
    assert!("1/0".parse::<BpmUnit>().is_err());
}

#[test]
fn bar_length_in_whole_notes() {
    assert_eq!(TimeSignature::four_four().whole_notes_per_bar(), Rational::one());
    assert_eq!(
        TimeSignature::new(7, 8).unwrap().whole_notes_per_bar(),
        Rational::new(7, 8)
    );
}

#[test]
fn round_trips_through_display() {
    for s in ["4/4", "7/8", "3/4", "12/8"] {
        assert_eq!(s.parse::<TimeSignature>().unwrap().to_string(), s);
    }
    assert_eq!(BpmUnit::quarter().to_string(), "1/4");
    assert_eq!(BpmUnit::dotted_quarter().to_string(), "3/8");
}

#[test]
fn a_refused_signature_is_reported_as_written_or_as_read() {
    assert_eq!("x/4".parse::<TimeSignature>(), Err(Error::TimeSignature("x/4".to_string())));
    assert_eq!(" 0 / 4".parse::<TimeSignature>(), Err(Error::TimeSignature("0/4".to_string())));
    assert_eq!(BpmUnit::new(0, 4), Err(Error::BpmUnit("0/4".to_string())));
    assert_eq!(TimeSignature::default(), TimeSignature::four_four());
    assert_eq!(BpmUnit::default(), BpmUnit::quarter());
}

// ---- tempo ----

#[test]
fn parses_integer_and_decimal_bpm() {
    assert_eq!("103".parse::<Tempo>().unwrap().value(), Rational::from_int(103));
    assert_eq!("103.5".parse::<Tempo>().unwrap().value(), Rational::new(207, 2));
    assert_eq!("103.500".parse::<Tempo>().unwrap().value(), Rational::new(207, 2));
    assert_eq!("207/2".parse::<Tempo>().unwrap().value(), Rational::new(207, 2));
    // A tempo no float represents exactly, held exactly here.
    assert_eq!("0.1".parse::<Tempo>().unwrap().value(), Rational::new(1, 10));
}

#[test]
fn rejects_nonsense() {
    for s in ["0", "-103", "abc", "103.", "103.x", "1/0", ""] {
        assert!(s.parse::<Tempo>().is_err(), "{s:?} should not parse");
    }
}

#[test]
fn scaling_is_exact() {
    let t = Tempo::bpm(103).unwrap();
    let half = t.scaled(Rational::new(1, 2)).unwrap();
    assert_eq!(half.value(), Rational::new(103, 2));
    assert_eq!(half.scaled(Rational::from_int(2)).unwrap(), t);
}

#[test]
fn tempo_errors_carry_the_text_or_the_fraction() {
    assert_eq!("  abc ".parse::<Tempo>(), Err(Error::Tempo("abc".to_string())));
    assert_eq!("-6/4".parse::<Tempo>(), Err(Error::Tempo("-3/2".to_string())));
    // A fraction that is not strictly positive is refused as the reduced fraction.
    assert_eq!("6/-4".parse::<Tempo>(), Err(Error::Tempo("-3/2".to_string())));
    assert_eq!(Tempo::bpm(0), Err(Error::Tempo("0".to_string())));
    assert_eq!(
        Tempo::new(Rational::new(-1, 2), BpmUnit::quarter()),
        Err(Error::Tempo("-1/2".to_string()))
    );
    // A negative denominator moves to the numerator.
    assert_eq!("207/-2".parse::<Tempo>(), Err(Error::Tempo("-207/2".to_string())));
    assert_eq!("-207/-2".parse::<Tempo>().unwrap().value(), Rational::new(207, 2));
    // Overflowing decimals are refused, not wrapped.
    assert!("1701411834604692317316873037158841057.28".parse::<Tempo>().is_err());
    // The denominator whose negation would overflow is refused as written.
    assert_eq!(
        "5/-170141183460469231731687303715884105728".parse::<Tempo>(),
        Err(Error::Tempo("5/-170141183460469231731687303715884105728".to_string()))
    );
}

#[test]
fn a_unit_change_keeps_the_bpm_number() {
    let t = Tempo::bpm(103).unwrap().with_unit(BpmUnit::dotted_quarter());
    assert_eq!(t.value(), Rational::from_int(103));
    assert_eq!(t.unit(), BpmUnit::dotted_quarter());
}

// ---- speed ----

#[test]
fn fitting_one_tempo_to_another_is_exact() {
    let from = Tempo::bpm(103).unwrap();
    let to = Tempo::bpm(90).unwrap();
    let r = Ratio::from_tempi(from, to).unwrap();
    assert_eq!(r.as_rational(), Rational::new(90, 103));
    assert_eq!(r.resulting_tempo(from).unwrap().value(), Rational::from_int(90));
}

#[test]
fn whole_octaves_are_exact() {
    assert_eq!(Ratio::from_octaves(1).as_rational(), Rational::from_int(2));
    assert_eq!(Ratio::from_octaves(2).as_rational(), Rational::from_int(4));
    assert_eq!(Ratio::from_octaves(-1).as_rational(), Rational::new(1, 2));
    assert_eq!(Ratio::from_octaves(-2).as_rational(), Rational::new(1, 4));
    assert_eq!(Ratio::from_octaves(0).as_rational(), Rational::one());
    assert!(Ratio::from_octaves(0).is_unity());
    assert_eq!(Ratio::from_octaves(100).as_rational(), Rational::from_int(1i128 << 100));
}

#[test]
fn the_speed_law_is_asymmetric() {
    let up = Ratio::from_percent(Rational::from_int(50)).unwrap();
    let down = Ratio::from_percent(Rational::from_int(-50)).unwrap();
    assert_eq!(up.as_rational(), Rational::new(3, 2));
    assert_eq!(down.as_rational(), Rational::new(1, 2));
    // −100 % is a full stop, not a speed.
    assert_eq!(
        Ratio::from_percent(Rational::from_int(-100)),
        Err(Error::SpeedRatio(Rational::zero()))
    );
    assert!(Ratio::exact(Rational::from_int(-2)).is_err());
}

#[test]
fn output_length_is_the_input_divided_by_the_ratio() {
    let half = Ratio::from_octaves(-1);
    assert_eq!(half.output_frames(822_058), 1_644_116);
    let double = Ratio::from_octaves(1);
    assert_eq!(double.output_frames(822_058), 411_029);
    assert_eq!(double.output_frames(822_059), 411_030); // .5 rounds up
    assert_eq!(Ratio::unity().output_frames(12_345), 12_345);
}

#[test]
fn the_bpm_unit_survives_a_speed_change() {
    let dotted = Tempo::bpm(103).unwrap().with_unit(BpmUnit::dotted_quarter());
    let out = Ratio::from_percent(Rational::from_int(50))
        .unwrap()
        .resulting_tempo(dotted)
        .unwrap();
    assert_eq!(out.unit(), BpmUnit::dotted_quarter());
    assert_eq!(out.value(), Rational::new(309, 2));
}

// ---- the grid ----

#[test]
fn cut_points_never_accumulate() {
    // A tempo whose bar length is stubbornly non-integer.
    let g = grid(103, "7/8", 44_100);
    for bar in [0u64, 1, 7, 64, 1_000, 100_000, 1_000_000] {
        let exact = g.exact_sample(bar);
        let got = g.cut_sample(bar);
        let err = (Rational::from_int(got as i128) - exact).abs();
        // Bounded by half a sample at any distance.
        assert!(err <= Rational::new(1, 2), "bar {bar}: error {}", err.to_string());
    }
}

#[test]
fn golden_cut_points() {
    let cases: &[(u32, &str, u32, u64, u64)] = &[
        (103, "4/4", 44_100, 8, 822_058),
        (103, "4/4", 48_000, 8, 894_757),
        (120, "4/4", 44_100, 8, 705_600),
        (120, "4/4", 48_000, 8, 768_000),
        (128, "4/4", 44_100, 8, 661_500),
        (100, "3/4", 44_100, 8, 635_040),
        (103, "3/4", 44_100, 8, 616_544),
        (103, "7/8", 44_100, 8, 719_301),
        (140, "7/8", 44_100, 8, 529_200),
        (103, "6/8", 44_100, 8, 616_544),
    ];
    for &(bpm, sig, sr, bars, expected) in cases {
        let g = grid(bpm, sig, sr);
        assert_eq!(
            g.cut_sample(bars),
            expected,
            "{bpm} BPM {sig} @ {sr} Hz, {bars} bars — exact value {}",
            g.exact_sample(bars).to_string()
        );
    }
}

#[test]
fn bpm_unit_changes_the_bar_length() {
    let quarters = grid(103, "6/8", 44_100);
    let dotted = Grid {
        tempo: quarters.tempo.with_unit(BpmUnit::dotted_quarter()),
        ..quarters
    };
    assert_eq!(quarters.seconds_per_bar(), Rational::new(180, 103));
    assert_eq!(dotted.seconds_per_bar(), Rational::new(120, 103));
    assert_eq!(dotted.seconds_per_bar(), quarters.seconds_per_bar() * Rational::new(2, 3));
    assert_eq!(quarters.samples_per_bar(), grid(103, "3/4", 44_100).samples_per_bar());
    assert_eq!(dotted.samples_per_bar(), dotted.samples_per_beat() * Rational::from_int(2));
}

#[test]
fn fractional_bpm_stays_exact() {
    let g = Grid::new("103.5".parse().unwrap(), TimeSignature::four_four(), 44_100);
    assert_eq!(g.exact_sample(8), Rational::new(338_688_000 * 2, 207 * 4));
    assert_eq!(g.cut_sample(8), 818_087);
}

#[test]
fn align_modes_differ_by_at_most_one_sample() {
    let g = grid(103, "7/8", 44_100);
    let l = g.region(8, 8, Align::Loop);
    let r = g.region(8, 8, Align::Grid);
    assert_eq!(l.start, r.start);
    assert!(l.len().abs_diff(r.len()) <= 1, "{} vs {}", l.len(), r.len());
    for skip in [0u64, 3, 8, 17, 4001] {
        let a = g.region(skip, 8, Align::Loop);
        assert_eq!(a.len(), g.exact_sample(8).round_half_up() as u64);
    }
}

#[test]
fn length_residual_is_zero_for_exact_tempos() {
    let g = grid(120, "4/4", 48_000);
    assert!(g.is_sample_exact(8));
    assert!(g.length_residual(8, 8, Align::Loop).is_exact());
    assert!(g.length_residual(8, 8, Align::Grid).is_exact());
    assert_eq!(g.region(8, 8, Align::Loop), g.region(8, 8, Align::Grid));
}

#[test]
fn sample_exact_bpms_matches_the_documented_set() {
    let g = grid(103, "4/4", 44_100);
    assert!(!g.is_sample_exact(8));
    let list = g.sample_exact_bpms(8, 30); // 73..=133
    assert_eq!(list, vec![75, 80, 84, 90, 96, 98, 100, 105, 108, 112, 120, 125, 126, 128]);
    assert_eq!(list.iter().rev().find(|&&b| b < 103), Some(&100));
    assert_eq!(list.iter().find(|&&b| b > 103), Some(&105));
}

#[test]
fn sample_exact_bpms_are_actually_exact() {
    for sr in [44_100u32, 48_000] {
        for sig in ["4/4", "3/4", "7/8"] {
            let g = grid(103, sig, sr);
            for bpm in g.sample_exact_bpms(8, 40) {
                let exact = grid(bpm, sig, sr);
                assert!(
                    exact.is_sample_exact(8),
                    "{bpm} BPM {sig} @ {sr} claimed exact but is {}",
                    exact.exact_sample(8).to_string()
                );
                assert!(exact.length_residual(8, 8, Align::Loop).is_exact());
            }
        }
    }
}

#[test]
fn the_residual_of_the_reference_case_is_exact() {
    let g = grid(103, "4/4", 44_100);
    assert_eq!(g.samples_per_bar(), Rational::new(44_100 * 60 * 4, 103));
    assert_eq!(g.exact_sample(8), Rational::new(338_688_000, 412));
    let res = g.residual(8);
    assert_eq!(res.samples, Rational::new(-26, 103));
    assert_eq!(res.sample_rate(), 44_100);
    assert_eq!(res.exact_samples(), g.exact_sample(8));
    let region = g.region(8, 8, Align::Loop);
    assert_eq!(region.start, 822_058);
    assert_eq!(region.len(), 822_058);
}

#[test]
fn bar_zero_is_the_origin() {
    let g = grid(103, "4/4", 44_100);
    assert_eq!(g.cut_sample(0), 0);
    assert!(g.residual(0).is_exact());
    assert!(g.region(0, 0, Align::Loop).is_empty());
    assert_eq!(Align::default(), Align::Loop);
    assert_eq!(Align::Loop.to_string(), "loop");
    assert_eq!(Align::Grid.to_string(), "grid");
}

#[test]
fn resampling_divides_the_exact_length_not_the_rounded_one() {
    let g = grid(103, "4/4", 44_100);
    let cut = g.region(8, 8, Align::Loop).len();
    let half = Ratio::from_octaves(-1);
    assert_eq!(g.resampled_length(8, half), 1_644_117);
    assert_eq!(half.output_frames(cut as usize), 1_644_116);
}

#[test]
fn fitting_to_an_exact_tempo_removes_the_rounding_entirely() {
    let g = grid(103, "4/4", 44_100);
    let to_90 = Ratio::from_tempi(Tempo::bpm(103).unwrap(), Tempo::bpm(90).unwrap()).unwrap();
    assert_eq!(g.resampled_length(8, to_90), 940_800);
    let scaled = g.scaled(to_90).unwrap();
    assert_eq!(scaled.tempo.value(), Rational::from_int(90));
    assert!(scaled.is_sample_exact(8));
    assert_eq!(scaled.sample_rate, 44_100);
    assert_eq!(scaled.sig, g.sig);
}

#[test]
fn unity_speed_changes_no_length() {
    let g = grid(103, "7/8", 48_000);
    for bars in [1u64, 4, 8, 16] {
        assert_eq!(
            g.resampled_length(bars, Ratio::unity()),
            g.exact_sample(bars).round_half_up() as u64
        );
    }
    assert_eq!(g.scaled(Ratio::unity()).unwrap(), g);
    assert_eq!(g.scaled_tempo(Rational::one()), Some(g.tempo));
    assert_eq!(g.scaled_tempo(Rational::from_int(-1)), None);
}

// ---- note values ----

fn note_grid(bpm: u32, rate: u32) -> Grid {
    Grid::new(Tempo::bpm(bpm).expect("tempo"), TimeSignature::default(), rate)
}

#[test]
fn a_quarter_at_120_is_half_a_second() {
    let g = note_grid(120, 48_000);
    let quarter = length(&g, NoteValue::new(4, Flavour::Straight));
    assert_eq!(quarter.seconds, Rational::new(1, 2));
    assert_eq!(quarter.samples, Rational::from_int(24_000));
    assert!(quarter.is_sample_exact());
}

#[test]
fn a_dotted_eighth_is_three_quarters_of_a_quarter() {
    let g = note_grid(120, 48_000);
    let dotted = length(&g, NoteValue::new(8, Flavour::Dotted));
    assert_eq!(dotted.seconds, Rational::new(3, 8));
    assert_eq!(dotted.samples, Rational::from_int(18_000));
}

#[test]
fn a_quarter_triplet_is_a_third_of_a_half_note() {
    let g = note_grid(120, 48_000);
    let triplet = length(&g, NoteValue::new(4, Flavour::Triplet));
    assert_eq!(triplet.seconds, Rational::new(1, 3));
    assert_eq!(triplet.seconds * Rational::from_int(3), Rational::from_int(1));
}

#[test]
fn the_share_of_a_bar_is_a_fraction_not_a_rounding() {
    let g = note_grid(103, 44_100);
    let sixteenth = length(&g, NoteValue::new(16, Flavour::Straight));
    assert_eq!(sixteenth.per_bar, Rational::new(1, 16));
}

#[test]
fn a_tempo_that_does_not_divide_is_not_sample_exact() {
    let g = note_grid(103, 44_100);
    let quarter = length(&g, NoteValue::new(4, Flavour::Straight));
    assert!(!quarter.is_sample_exact());
    assert_eq!(quarter.samples, Rational::new(60 * 44_100, 103));
}

#[test]
fn the_bpm_unit_changes_every_row() {
    let quarters = Grid::new(
        Tempo::bpm(120).expect("tempo").with_unit(BpmUnit::quarter()),
        TimeSignature::new(6, 8).expect("signature"),
        48_000,
    );
    let dotted = Grid::new(
        Tempo::bpm(120).expect("tempo").with_unit(BpmUnit::dotted_quarter()),
        TimeSignature::new(6, 8).expect("signature"),
        48_000,
    );
    let a = length(&quarters, NoteValue::new(4, Flavour::Straight)).seconds;
    let b = length(&dotted, NoteValue::new(4, Flavour::Straight)).seconds;
    assert_eq!(b, a * Rational::new(2, 3));
}

#[test]
fn the_table_covers_every_value_once() {
    let g = note_grid(120, 48_000);
    let rows = table(&g);
    assert_eq!(rows.len(), DENOMINATORS.len() * 3);
    let mut labels: Vec<String> = rows.iter().map(|r| r.value.label()).collect();
    let count = labels.len();
    labels.sort();
    labels.dedup();
    assert_eq!(labels.len(), count, "a value appears twice");
    assert_eq!(rows[0].value.label(), "1/1");
    assert_eq!(rows[8].value.label(), "1/4.");
    assert_eq!(rows[16].value.label(), "1/16T");
}

#[test]
fn halving_the_denominator_doubles_the_length() {
    let g = note_grid(97, 44_100);
    for flavour in [Flavour::Straight, Flavour::Dotted, Flavour::Triplet] {
        let eighth = length(&g, NoteValue::new(8, flavour)).samples;
        let quarter = length(&g, NoteValue::new(4, flavour)).samples;
        assert_eq!(quarter, eighth * Rational::from_int(2), "{flavour:?}");
    }
}

#[test]
fn a_zero_denominator_reads_as_a_whole_note() {
    assert_eq!(NoteValue::new(0, Flavour::Straight).whole_notes(), Rational::one());
    assert_eq!(NoteValue::new(8, Flavour::Dotted).whole_notes(), Rational::new(3, 16));
    assert_eq!(Flavour::default(), Flavour::Straight);
    assert_eq!(Flavour::Triplet.factor(), Rational::new(2, 3));
}

#[test]
fn a_bar_line_too_far_out_for_i128_is_seen_coming() {
    let grid = Grid::new(Tempo::bpm(103).unwrap(), TimeSignature::four_four(), 44_100);
    assert!(grid.can_place(8));
    assert!(grid.can_place(1_000_000));
    assert!(grid.can_place(u64::MAX));
    let crawl = Tempo::new(Rational::new(1, 1_000_000_000_000), BpmUnit::quarter()).unwrap();
    let slow = Grid::new(crawl, TimeSignature::four_four(), 44_100);
    assert!(slow.can_place(1_000));
    assert!(!slow.can_place(u64::MAX));
}

#[test]
fn the_nearest_exact_tempos_either_side_are_picked_from_the_list() {
    let g = grid(103, "4/4", 44_100);
    assert!(g.can_list_exact_bpms(8, 30));
    let list = g.sample_exact_bpms(8, 30);
    assert_eq!(nearest_either_side(&list, g.tempo.value()), (Some(100), Some(105)));
    // A tempo on the list is neither below nor above itself.
    assert_eq!(nearest_either_side(&list, Rational::from_int(105)), (Some(100), Some(108)));
    // Fractional tempos compare exactly: 99.5 sits between 98 and 100.
    assert_eq!(nearest_either_side(&list, Rational::new(199, 2)), (Some(98), Some(100)));
    assert_eq!(nearest_either_side(&list, Rational::from_int(10)), (None, Some(75)));
    assert_eq!(nearest_either_side(&list, Rational::from_int(500)), (Some(128), None));
    assert_eq!(nearest_either_side(&vec![], Rational::from_int(120)), (None, None));
    // Zero is not a tempo, so it is never offered.
    assert_eq!(nearest_either_side(&vec![0, 90], Rational::from_int(120)), (Some(90), None));
}

#[test]
fn the_checks_before_the_bar_arithmetic_see_overflow_coming() {
    let g = grid(103, "4/4", 44_100);
    assert!(g.can_cut(8, 8, Align::Loop));
    assert!(g.can_cut(8, 8, Align::Grid));
    assert!(g.can_measure(8));
    assert!(g.can_measure_length(8, 8, Align::Loop));
    assert!(!g.can_cut(u64::MAX, 1, Align::Grid), "the end bar does not fit a u64");
    let crawl = Tempo::new(Rational::new(1, 1_000_000_000_000), BpmUnit::quarter()).unwrap();
    let slow = Grid::new(crawl, TimeSignature::four_four(), 44_100);
    assert!(slow.can_cut(0, 1, Align::Loop));
    assert!(!slow.can_cut(1, 1, Align::Loop), "two bars of samples do not fit a u64");
    assert!(!slow.can_cut(u64::MAX, 1, Align::Loop));
    assert!(!slow.can_measure(u64::MAX));
    assert!(!slow.can_measure_length(0, u64::MAX, Align::Grid));
    // A window reaching past i128 cannot be listed.
    let fast = Grid::new(
        Tempo::new(Rational::from_int(i128::MAX - 10), BpmUnit::quarter()).unwrap(),
        TimeSignature::four_four(),
        44_100,
    );
    assert!(!fast.can_list_exact_bpms(1, 30));
}

/// A rational as the nearest `f64`, for comparing against decimal figures.
fn approx(r: Rational) -> f64 {
    r.num() as f64 / r.den() as f64
}

#[test]
fn reference_case_103bpm() {
    let g = grid(103, "4/4", 44_100);

    assert_eq!(g.samples_per_bar(), Rational::new(44_100 * 60 * 4, 103));
    assert_eq!(g.exact_sample(8), Rational::new(338_688_000, 412));
    assert_eq!(g.cut_sample(8), 822_058);

    // Bar length 2.3301 s, 16 bars ≈ 37.28 s — matches the observed file.
    assert!((approx(g.seconds_per_bar()) - 2.330_097).abs() < 1e-6);
    assert!((approx(g.seconds_per_bar()) * 16.0 - 37.281_55).abs() < 1e-4);

    // The desired cut: 18.641 s → 37.282 s.
    let region = g.region(8, 8, Align::Loop);
    assert_eq!(region.start, 822_058);
    assert_eq!(region.len(), 822_058);
    assert!((region.start as f64 / 44_100.0 - 18.641).abs() < 1e-3);
    assert!((region.end as f64 / 44_100.0 - 37.282).abs() < 1e-3);

    // The docs quote ≈0.25 samples ≈ 5.7 µs ≈ 0.3 ppm; exactly it is
    // 26/103 of a sample, rounded down, so the error is negative.
    let res = g.residual(8);
    assert_eq!(res.samples, Rational::new(-26, 103));
    let micros = approx(res.samples) / 44_100.0 * 1e6;
    let ppm = approx(res.samples.divided_by(g.exact_sample(8))) * 1e6;
    assert!((micros + 5.724).abs() < 1e-3, "{micros}");
    assert!((ppm + 0.307).abs() < 1e-3, "{ppm}");
}

#[test]
fn dividing_the_rounded_length_can_be_a_sample_wrong() {
    let g = grid(103, "4/4", 44_100);
    let cut = g.region(8, 8, Align::Loop).len(); // 822058, already rounded

    // Half speed. Dividing the exact bar mathematics gives 1644117;
    // dividing the rounded cut length gives 1644116 — one sample short, and
    // a sample short is a loop that drifts. Twelve semitones down is exactly
    // an octave down.
    let half = Ratio::from_octaves(-1);
    assert_eq!(g.resampled_length(8, half), 1_644_117);
    assert_eq!(half.output_frames(cut as usize), 1_644_116);

    // Where they agree they must keep agreeing — this is not a licence to
    // differ everywhere.
    for ratio in [
        Ratio::from_octaves(1),
        Ratio::from_percent(Rational::new(50, 1)).unwrap(),
        Ratio::from_tempi(Tempo::bpm(103).unwrap(), Tempo::bpm(90).unwrap()).unwrap(),
    ] {
        assert_eq!(
            g.resampled_length(8, ratio),
            ratio.output_frames(cut as usize) as u64,
            "{ratio:?}"
        );
    }
}

#[test]
fn a_region_is_cut_down_to_what_the_source_holds() {
    let r = Region { start: 100, end: 300 };
    assert_eq!(r.within(1_000), (Region { start: 100, end: 300 }, 0));
    assert_eq!(r.within(250), (Region { start: 100, end: 250 }, 50));
    assert_eq!(r.within(50), (Region { start: 50, end: 50 }, 200));
    assert_eq!(Region { start: 7, end: 7 }.within(0), (Region { start: 0, end: 0 }, 0));
}

#[test]
fn a_negative_decimal_is_negative_all_the_way_through() {
    // The sign of the whole part covers the decimals: -0.5 is minus one half.
    assert_eq!(Tempo::parse("-0.5"), Err(Error::Tempo("-1/2".to_string())));
    assert_eq!(" -0.25 ".parse::<Tempo>(), Err(Error::Tempo("-1/4".to_string())));
    assert_eq!(Tempo::parse("-1.5"), Err(Error::Tempo("-3/2".to_string())));
    assert_eq!(Tempo::parse("-0"), Err(Error::Tempo("0".to_string())));
    assert_eq!(Tempo::parse("-103/2"), Err(Error::Tempo("-103/2".to_string())));
    assert_eq!(Tempo::parse("-1/-2").unwrap().value(), Rational::new(1, 2));
    assert_eq!(Tempo::parse("+1.5").unwrap().value(), Rational::new(3, 2));
}

#[test]
fn a_bar_is_beats_times_the_share_over_the_unit() {
    for (sig, unit) in [("4/4", BpmUnit::quarter()), ("6/8", BpmUnit::dotted_quarter()), ("7/8", BpmUnit::quarter())] {
        let base = grid(103, sig, 44_100);
        let g = Grid { tempo: base.tempo.with_unit(unit), ..base };
        let share = g.sig.whole_notes_per_bar();
        assert_eq!(g.samples_per_bar(), g.samples_per_beat() * share / unit.whole_notes(), "{sig}");
    }
}
