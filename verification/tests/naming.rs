use loopslcr::naming::{bars_from_name, name_is_readable, output_stem, tempo_from_name};

fn bpm(name: &str) -> Option<String> {
    tempo_from_name(name).map(|t| {
        let v = t.value();
        if v.is_integer() {
            v.num().to_string()
        } else {
            v.to_string()
        }
    })
}

#[test]
fn reads_the_archives_actual_conventions() {
    for (name, expected) in [
        ("103 29Jul26 1Punkt1 Cstc.wav", Some("103")),
        ("102-MTRX-01.wav", Some("102")),
        ("105CSTC-APRL02-ATM01-4BRS.wav", Some("105")),
        ("110DL_BTWG-VST_01-2BARS.wav", Some("110")),
        ("132-JAZZ.ORG-01_4BRS.wav", Some("132")),
        ("106-cstc-08DEC24-ATMO-01.wav", Some("106")),
        ("120-APRL17 8BRS.wav", Some("120")),
        ("78-SMPL.BRN-01", Some("78")),
        ("00005 136BPM E01 01 comp 01 cut 01.wav", Some("136")),
        ("58.5 DL_4BAR_Lumiko Imai 01.wav", Some("117/2")),
        ("WIN10-INSTALL-01.wav", None),
        ("untitled #20.wav", None),
        ("ACEVNTRA-01.wav", None),
        ("BLEEP-WIN10-01.wav", None),
        ("maLOUTE-GLYCN-01.wav", None),
    ] {
        assert_eq!(bpm(name).as_deref(), expected, "{name}");
    }
}

#[test]
fn a_bpm_marker_outranks_position() {
    assert_eq!(bpm("120 something 90BPM.wav").as_deref(), Some("90"));
    assert_eq!(bpm("103 weird 5BPM.wav").as_deref(), Some("103"));
}

#[test]
fn a_bar_count_is_not_mistaken_for_a_tempo() {
    assert_eq!(bpm("DL_64BARS_untitled.wav"), None);
    assert_eq!(bpm("DL_4BAR_Lumiko.wav"), None);
    assert_eq!(bpm("110DL_64BARS.wav").as_deref(), Some("110"));
}

#[test]
fn the_extension_is_not_a_decimal() {
    assert_eq!(bpm("103.wav").as_deref(), Some("103"));
    assert_eq!(bpm("103.5.wav").as_deref(), Some("207/2"));
    assert_eq!(bpm("103 loop").as_deref(), Some("103"));
}

#[test]
fn dates_and_take_numbers_are_rejected() {
    assert_eq!(bpm("29Jul26 take 01.wav"), None);
    assert_eq!(bpm("session 2024-03-01.wav"), None);
    assert_eq!(bpm("105-DT-APRL19-23 01.wav").as_deref(), Some("105"));
}

#[test]
fn reads_bar_counts() {
    for (name, expected) in [
        ("105CSTC-APRL02-ATM01-4BRS.wav", Some(4)),
        ("110DL_BTWG-VST_01-2BARS.wav", Some(2)),
        ("120-APRL17 8BRS.wav", Some(8)),
        ("58.5 DL_4BAR_Lumiko Imai 01.wav", Some(4)),
        ("132-JAZZ.ORG-01_4BRS.wav", Some(4)),
        ("103 29Jul26 1Punkt1 Cstc.wav", None),
        ("102-MTRX-01.wav", None),
        ("DL_0BARS.wav", None),
        ("DL_500BARS.wav", None),
    ] {
        assert_eq!(bars_from_name(name), expected, "{name}");
    }
}

#[test]
fn empty_and_odd_input_is_handled() {
    assert_eq!(bpm(""), None);
    assert_eq!(bpm(".wav"), None);
    assert_eq!(bpm("....."), None);
    assert_eq!(bars_from_name(""), None);
    let huge = "9".repeat(200);
    assert_eq!(bpm(&format!("{huge}.wav")), None);
    assert_eq!(bpm(&format!("103 {huge}.wav")).as_deref(), Some("103"));
}

#[test]
fn an_output_stem_only_drops_a_real_audio_extension() {
    assert_eq!(output_stem("103 Cstc.wav"), "103 Cstc");
    assert_eq!(output_stem("103 Cstc.WAV"), "103 Cstc");
    assert_eq!(output_stem("loop.aiff"), "loop");
    assert_eq!(output_stem("78-SMPL.BRN-21OCT23-01"), "78-SMPL.BRN-21OCT23-01");
    assert_eq!(output_stem("78-SMPL.BRN-21OCT23-02"), "78-SMPL.BRN-21OCT23-02");
    assert_ne!(output_stem("78-SMPL.BRN-21OCT23-01"), output_stem("78-SMPL.BRN-21OCT23-02"));
    assert_eq!(output_stem("58.5 DL_4BAR"), "58.5 DL_4BAR");
    assert_eq!(output_stem("no dots here"), "no dots here");
}

#[test]
fn markers_ignore_case_and_separators() {
    assert_eq!(bpm("x 90 - bpm.wav").as_deref(), Some("90"));
    assert_eq!(bars_from_name("loop_8_Bars.wav"), Some(8));
    assert_eq!(bpm("Café 103 é.wav").as_deref(), Some("103"));
}

#[test]
fn an_overflowing_decimal_is_flagged_before_it_is_read() {
    let name = "99999999999999999999999999999999999999.5 loop.wav";
    assert!(!name_is_readable(name));
    assert!(name_is_readable("103 loop.wav"));
    assert!(name_is_readable(&format!("{}.5.wav", "9".repeat(60))));
}
