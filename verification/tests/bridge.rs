use loopslcr::analysis::Workflow;
use loopslcr::bridge::json::{is_float_in, parse, quote, Object, Value};
use loopslcr::bridge::names::{bars_source_name, tempo_source_name, workflow_name};
use loopslcr::bridge::params::{check_short, params_from_fields, ParamError, ParamFields};
use loopslcr::pipeline::{BarsSource, DitherPolicy, TempoSource};
use loopslcr::timing::grid::Align;
use loopslcr::timing::signature::{BpmUnit, TimeSignature};
use loopslcr::wav::write::BitDepth;
use loopslcr::Error;

fn number(v: &Value) -> Option<f64> {
    v.number_text().map(|t| t.parse::<f64>().expect("a number the reader accepts"))
}

#[test]
fn the_same_values_always_render_the_same_bytes() {
    // Sorted keys rather than insertion order: what crosses the boundary is
    // covered by the reproducibility invariant too.
    let build = |order: bool| {
        let mut o = Object::new();
        if order {
            o.integer("a", 1).integer("b", 2);
        } else {
            o.integer("b", 2).integer("a", 1);
        }
        o.render()
    };
    assert_eq!(build(true), build(false));
    assert_eq!(build(true), r#"{"a":1,"b":2}"#);
}

#[test]
fn a_nested_value_is_refused_rather_than_skipped() {
    let e = parse(r#"{"a":{"b":1}}"#).unwrap_err();
    assert!(e.contains("nested"), "{e}");
    let e = parse(r#"{"a":[1,2]}"#).unwrap_err();
    assert!(e.contains("nested"), "{e}");
}

#[test]
fn malformed_input_is_an_error_not_a_panic() {
    for bad in [
        "", "{", "}", "[]", r#"{"a"}"#, r#"{"a":}"#, r#"{"a":1,}"#, r#"{"a":x}"#,
        r#"{a:1}"#, r#"{"a":1"#, r#"{"unterminated"#,
    ] {
        assert!(parse(bad).is_err(), "{bad:?} parsed");
    }
}

#[test]
fn an_empty_object_is_valid() {
    assert!(parse("{}").unwrap().is_empty());
    assert_eq!(Object::new().render(), "{}");
}

#[test]
fn an_object_round_trips() {
    let mut o = Object::new();
    o.integer("frames", 940_800)
        .spelled("tempo", format!("{:?}", 103.5f64))
        .bool("exact", true)
        .string("workflow", "warmup")
        .spelled("ratio", "null".to_string())
        .maybe_integer("bars", Some(8));

    let text = o.render();
    let back = parse(&text).unwrap();
    assert_eq!(back.get("frames").and_then(number), Some(940_800.0));
    assert_eq!(back.get("tempo").and_then(number), Some(103.5));
    assert_eq!(back.get("exact").and_then(|v| v.as_bool()), Some(true));
    assert_eq!(back.get("workflow").and_then(|v| v.as_str()), Some("warmup"));
    assert_eq!(back.get("ratio"), Some(&Value::Null));
    assert_eq!(back.get("bars").and_then(number), Some(8.0));
    assert_eq!(back.len(), 6);
}

#[test]
fn strings_are_escaped() {
    let mut o = Object::new();
    o.string("name", "a \"quoted\" \\ name\nwith\ttabs\u{1}");
    let text = o.render();
    let back = parse(&text).unwrap();
    assert_eq!(
        back.get("name").and_then(|v| v.as_str()),
        Some("a \"quoted\" \\ name\nwith\ttabs\u{1}")
    );
    assert!(text.contains("\\u0001"), "{text}");
    assert_eq!(quote("x\u{1f}"), "\"x\\u001f\"");
}

#[test]
fn whitespace_between_everything_is_fine() {
    let back = parse("  {  \"a\" : 1 ,\n \"b\" : true  }  ").unwrap();
    assert_eq!(back.get("a").and_then(number), Some(1.0));
    assert_eq!(back.get("b").and_then(|v| v.as_bool()), Some(true));
}

#[test]
fn a_missing_integer_is_null_and_a_negative_one_keeps_its_sign() {
    let mut o = Object::new();
    o.maybe_integer("x", None).integer("y", -12).bool("z", false);
    assert_eq!(o.render(), r#"{"x":null,"y":-12,"z":false}"#);
}

#[test]
fn a_key_given_twice_keeps_the_last_value() {
    let back = parse(r#"{"a":1,"a":2}"#).unwrap();
    assert_eq!(back.len(), 1);
    assert_eq!(back.get("a").and_then(number), Some(2.0));
}

#[test]
fn the_errors_say_what_went_wrong() {
    assert_eq!(parse("").unwrap_err(), "expected an object");
    assert_eq!(parse("{").unwrap_err(), "unterminated object");
    assert_eq!(parse(r#"{"a":1,}"#).unwrap_err(), "trailing comma");
    assert_eq!(parse(r#"{"a"}"#).unwrap_err(), "expected ':' after \"a\"");
    assert_eq!(parse(r#"{"a":x}"#).unwrap_err(), "\"a\": \"x\" is not a number");
    assert_eq!(parse(r#"{"a":"#).unwrap_err(), "\"a\": value is missing");
    assert_eq!(parse(r#"{"a":1 2}"#).unwrap_err(), "expected ',' or '}'");
    assert_eq!(parse(r#"{"a":"\uzz"}"#).unwrap_err(), "bad escape \\uzz\"}");
}

#[test]
fn a_unicode_escape_reads_back_as_its_character() {
    let back = parse(r#"{"a":"\u00e9\u+041"}"#).unwrap();
    assert_eq!(back.get("a").and_then(|v| v.as_str()), Some("éA"));
    assert!(parse(r#"{"a":"\ud800"}"#).is_err());
}

#[test]
fn numbers_are_what_the_float_reader_accepts() {
    let ok = ["1", "-1.5", "+.5", "1.", "2e10", "2E-3", "inf", "-Infinity", "NaN"];
    for t in ok {
        let v: Vec<char> = t.chars().collect();
        assert!(is_float_in(&v, 0, v.len()), "{t}");
        assert!(t.parse::<f64>().is_ok(), "{t}");
    }
    let bad = ["", ".", "e5", "1e", "1.2.3", "--1", "0x10", "1_000"];
    for t in bad {
        let v: Vec<char> = t.chars().collect();
        assert!(!is_float_in(&v, 0, v.len()), "{t}");
        assert!(t.parse::<f64>().is_err(), "{t}");
    }
}

#[test]
fn text_after_the_object_is_refused() {
    assert_eq!(parse("{} trailing").err(), Some("text after the object".to_string()));
}

#[test]
fn a_table_keeps_one_value_per_key_in_key_order() {
    use_table();
}

fn use_table() {
    let mut t: loopslcr::bridge::table::Table<String> = loopslcr::bridge::table::Table::new();
    assert!(t.is_empty());
    t.insert("b", "2".to_string());
    t.insert("a", "1".to_string());
    t.insert("b", "3".to_string());
    assert_eq!(t.len(), 2);
    assert_eq!(t.get("a").map(|s| s.as_str()), Some("1"));
    assert_eq!(t.get("b").map(|s| s.as_str()), Some("3"));
    assert_eq!(t.get("c"), None);
    let (k, v) = t.entry(0);
    assert_eq!((k.iter().collect::<String>(), v.as_str()), ("a".to_string(), "1"));
}

#[test]
fn the_report_words_are_stable_and_free_of_spaces() {
    assert_eq!(workflow_name(Workflow::WarmupRender), "warmup");
    assert_eq!(workflow_name(Workflow::TailFoldback), "foldback");
    assert_eq!(workflow_name(Workflow::AlreadyTrimmed), "trimmed");
    assert_eq!(workflow_name(Workflow::Unclear), "unclear");
    assert_eq!(tempo_source_name(TempoSource::Given), "given");
    assert_eq!(tempo_source_name(TempoSource::AcidChunk), "acid");
    assert_eq!(tempo_source_name(TempoSource::Filename), "filename");
    assert_eq!(bars_source_name(BarsSource::Given), "given");
    assert_eq!(bars_source_name(BarsSource::Filename), "filename");
    assert_eq!(bars_source_name(BarsSource::FileLength), "fileLength");
}

#[test]
fn nothing_but_whitespace_may_follow_the_object() {
    assert_eq!(parse("{}x").err(), Some("text after the object".to_string()));
    assert!(parse(r#"{"a":1}x"#).is_err());
    assert!(parse(r#"{"a":1}{}"#).is_err());
    assert!(parse("{} \n\t").unwrap().is_empty());
    assert!(parse(r#" {"a":1}  "#).is_ok());
}

fn read_params(text: &str) -> Result<ParamFields, ParamError> {
    params_from_fields(&parse(text).unwrap())
}

#[test]
fn an_unknown_parameter_is_refused_rather_than_ignored() {
    assert_eq!(read_params(r#"{"targetBMP": 90}"#).err(), Some(ParamError::Unknown("targetBMP".to_string())));
    // Even when its value is null, a known key is merely not set.
    assert!(read_params(r#"{"targetBpm": null}"#).unwrap().target_bpm.is_none());
}

#[test]
fn a_parameter_of_the_wrong_kind_is_refused() {
    assert_eq!(read_params(r#"{"bars": "8"}"#).err(), Some(ParamError::ExpectedCount("bars".to_string())));
    assert_eq!(read_params(r#"{"bpm": true}"#).err(), Some(ParamError::ExpectedNumber("bpm".to_string())));
    assert_eq!(read_params(r#"{"snap": 1}"#).err(), Some(ParamError::ExpectedFlag("snap".to_string())));
    assert_eq!(read_params(r#"{"align": 1}"#).err(), Some(ParamError::ExpectedText("align".to_string())));
    assert_eq!(read_params(r#"{"align": "middle"}"#).err(), Some(ParamError::NotAnAlign("middle".to_string())));
    assert_eq!(read_params(r#"{"workflow": "c"}"#).err(), Some(ParamError::NotAWorkflow("c".to_string())));
    assert_eq!(read_params(r#"{"dither": "loud"}"#).err(), Some(ParamError::NotADither("loud".to_string())));
    assert!(matches!(read_params(r#"{"sig": "4/0"}"#), Err(ParamError::Invalid(k, Error::TimeSignature(_))) if k == "sig"));
    assert!(matches!(read_params(r#"{"depth": "8"}"#), Err(ParamError::Invalid(k, Error::BitDepthName(_))) if k == "depth"));
    // Keys are read in key order: the first that fails is the one reported.
    assert_eq!(
        read_params(r#"{"zzz": 1, "align": "middle"}"#).err(),
        Some(ParamError::NotAnAlign("middle".to_string()))
    );
}

#[test]
fn words_are_read_into_what_they_name() {
    let p = read_params(
        r#"{"sig": "7/8", "bpmUnit": "3/8", "align": "grid", "workflow": "b", "depth": " 16 ",
            "dither": "on", "bpm": 103.5, "bars": 8, "snap": true, "allowShort": true}"#,
    )
    .unwrap();
    assert_eq!(p.sig, Some(TimeSignature::new(7, 8).unwrap()));
    assert_eq!(p.bpm_unit, Some(BpmUnit::dotted_quarter()));
    assert_eq!(p.align, Some(Align::Grid));
    assert_eq!(p.workflow, Some(Some(Workflow::TailFoldback)));
    assert_eq!(p.depth, Some(BitDepth::Int16));
    assert_eq!(p.dither, Some(DitherPolicy::Flat));
    assert_eq!(p.bpm.as_deref(), Some("103.5"));
    assert_eq!(p.bars.as_deref(), Some("8"));
    assert_eq!(p.snap, Some(true));
    assert!(p.allow_short);
    assert!(!p.tape.named);
    assert_eq!(read_params(r#"{"workflow": "auto"}"#).unwrap().workflow, Some(None));
    assert!(!read_params("{}").unwrap().allow_short);
}

#[test]
fn naming_a_tape_amount_switches_the_character_on() {
    let p = read_params(r#"{"wow": 0.5}"#).unwrap();
    assert!(p.tape.named);
    assert_eq!(p.tape.enabled, Some(true));
    assert_eq!(p.tape.wow.as_deref(), Some("0.5"));
    // An explicit switch still wins.
    assert_eq!(read_params(r#"{"wow": 0.5, "tape": false}"#).unwrap().tape.enabled, Some(false));
    // A tape switch given as null leaves the default.
    assert_eq!(read_params(r#"{"wow": 0.5, "tape": null}"#).unwrap().tape.enabled, None);
    assert!(!read_params(r#"{"tape": null}"#).unwrap().tape.named);
}

#[test]
fn a_short_loop_is_refused_unless_allowed() {
    assert_eq!(
        check_short(12, 8, false).err(),
        Some("12 frames short of a 8-bar loop — the result would drift; set allowShort to accept it".to_string())
    );
    assert!(check_short(12, 8, true).is_ok());
    assert!(check_short(0, 8, false).is_ok());
}

#[test]
fn keys_and_tokens_in_messages_are_shown_escaped() {
    assert_eq!(parse(r#"{"a\"b\\c"}"#).unwrap_err(), r#"expected ':' after "a\"b\\c""#);
    assert_eq!(parse("{\"k\\tey\":1x}").unwrap_err(), r#""k\tey": "1x" is not a number"#);
    assert_eq!(parse(r#"{"q\"": {}}"#).unwrap_err(), r#""q\"": nested values are not supported"#);
}
