//! The run parameters as the Android side sends them: one flat JSON object.
//!
//! Every key is optional, and an unknown key is refused rather than ignored:
//! a misspelt `targetBpm` would otherwise silently produce a loop at the wrong
//! tempo. A `null` means "not set", which is what the defaults already say.
//! Keys are read in key order and the first one that cannot be read is the
//! error. Numbers stay the text they were written as; what they mean as
//! floats is the caller's to read.

use crate::analysis::Workflow;
use crate::bridge::json::{Parsed, Value};
use crate::bridge::table::{contents, Table};
use crate::error::Error;
use crate::naming::{first_where, lemma_first_where_at, lemma_first_where_none};
use crate::pipeline::DitherPolicy;
use crate::text::{chars_of, decimal, push_decimal, push_text, spells, string_of};
use crate::timing::grid::Align;
use crate::timing::signature::{
    signature_named, signature_read, unit_named, unit_read, BpmUnit, TimeSignature,
};
use crate::wav::write::{bit_depth_named, depth_read, BitDepth};
use vstd::prelude::*;

verus! {

/// What a key's value has to be.
#[derive(Copy, Clone, Debug, PartialEq, Eq, Structural)]
pub enum FieldKind {
    /// A number, kept as its text.
    Number,
    /// A number read as a count of something.
    Count,
    /// `true` or `false`.
    Flag,
    /// A word or a small grammar of its own.
    Text,
    /// No such parameter.
    Unknown,
}

/// What the key `k` takes.
pub open spec fn field_kind(k: Seq<char>) -> FieldKind {
    if k == "bpm"@ || k == "semitones"@ || k == "cents"@ || k == "targetBpm"@ || k == "fadeMs"@
        || k == "wow"@ || k == "flutter"@ || k == "hfRolloffHz"@ || k == "headBumpDb"@ || k
        == "headBumpHz"@ {
        FieldKind::Number
    } else if k == "bars"@ || k == "skip"@ || k == "snapWindow"@ || k == "ditherSeed"@ {
        FieldKind::Count
    } else if k == "preferNameTempo"@ || k == "preferNameBars"@ || k == "snap"@ || k
        == "normalize"@ || k == "noFade"@ || k == "allowShort"@ || k == "tape"@ {
        FieldKind::Flag
    } else if k == "sig"@ || k == "bpmUnit"@ || k == "align"@ || k == "workflow"@ || k
        == "depth"@ || k == "dither"@ {
        FieldKind::Text
    } else {
        FieldKind::Unknown
    }
}

/// The alignment a word names.
pub open spec fn align_named(t: Seq<char>) -> Option<Align> {
    if t == "loop"@ {
        Some(Align::Loop)
    } else if t == "grid"@ {
        Some(Align::Grid)
    } else {
        None
    }
}

/// The workflow a word names: `auto` is no workflow forced.
pub open spec fn workflow_named(t: Seq<char>) -> Option<Option<Workflow>> {
    if t == "auto"@ {
        Some(None)
    } else if t == "warmup"@ || t == "a"@ {
        Some(Some(Workflow::WarmupRender))
    } else if t == "foldback"@ || t == "b"@ {
        Some(Some(Workflow::TailFoldback))
    } else {
        None
    }
}

/// The dither policy a word names.
pub open spec fn dither_named(t: Seq<char>) -> Option<DitherPolicy> {
    if t == "auto"@ {
        Some(DitherPolicy::Auto)
    } else if t == "flat"@ || t == "on"@ {
        Some(DitherPolicy::Flat)
    } else if t == "shaped"@ {
        Some(DitherPolicy::Shaped)
    } else if t == "off"@ {
        Some(DitherPolicy::Off)
    } else {
        None
    }
}

/// The workflow words: `warmup` and `a` name the warmup render, `foldback`
/// and `b` the tail foldback, `auto` forces neither, and no other word names
/// a workflow.
pub proof fn law_workflow_words(t: Seq<char>)
    ensures
        workflow_named(t) == Some(Some(Workflow::WarmupRender)) <==> (t == "warmup"@ || t == "a"@),
        workflow_named(t) == Some(Some(Workflow::TailFoldback)) <==> (t == "foldback"@ || t
            == "b"@),
        workflow_named(t) == Some(None::<Workflow>) <==> t == "auto"@,
        workflow_named(t) is None <==> !(t == "warmup"@ || t == "a"@ || t == "foldback"@ || t
            == "b"@ || t == "auto"@),
{
    reveal_strlit("auto");
    reveal_strlit("warmup");
    reveal_strlit("a");
    reveal_strlit("foldback");
    reveal_strlit("b");
    assert("auto"@ != "warmup"@ && "auto"@ != "a"@ && "auto"@ != "foldback"@ && "auto"@ != "b"@) by {
        assert("auto"@.len() != "warmup"@.len());
        assert("auto"@.len() != "a"@.len());
        assert("auto"@.len() != "foldback"@.len());
        assert("auto"@.len() != "b"@.len());
    }
    assert("warmup"@ != "foldback"@ && "warmup"@ != "b"@ && "a"@ != "foldback"@ && "a"@ != "b"@)
        by {
        assert("warmup"@.len() != "foldback"@.len());
        assert("warmup"@.len() != "b"@.len());
        assert("a"@.len() != "foldback"@.len());
        assert("a"@[0] != "b"@[0]);
    }
}

/// The alignment words: `loop` is loop priority, `grid` grid priority, and
/// no other word names an alignment.
pub proof fn law_align_words(t: Seq<char>)
    ensures
        align_named(t) == Some(Align::Loop) <==> t == "loop"@,
        align_named(t) == Some(Align::Grid) <==> t == "grid"@,
        align_named(t) is None <==> !(t == "loop"@ || t == "grid"@),
{
    reveal_strlit("loop");
    reveal_strlit("grid");
    assert("loop"@ != "grid"@) by {
        assert("loop"@[0] != "grid"@[0]);
    }
}

/// The dither words: `auto`, `flat` or `on`, `shaped` and `off` each name
/// their policy, and no other word names one.
pub proof fn law_dither_words(t: Seq<char>)
    ensures
        dither_named(t) == Some(DitherPolicy::Auto) <==> t == "auto"@,
        dither_named(t) == Some(DitherPolicy::Flat) <==> (t == "flat"@ || t == "on"@),
        dither_named(t) == Some(DitherPolicy::Shaped) <==> t == "shaped"@,
        dither_named(t) == Some(DitherPolicy::Off) <==> t == "off"@,
        dither_named(t) is None <==> !(t == "auto"@ || t == "flat"@ || t == "on"@ || t
            == "shaped"@ || t == "off"@),
{
    reveal_strlit("auto");
    reveal_strlit("flat");
    reveal_strlit("on");
    reveal_strlit("shaped");
    reveal_strlit("off");
    assert("auto"@ != "flat"@ && "auto"@ != "on"@ && "auto"@ != "shaped"@ && "auto"@ != "off"@)
        by {
        assert("auto"@[0] != "flat"@[0]);
        assert("auto"@.len() != "on"@.len());
        assert("auto"@.len() != "shaped"@.len());
        assert("auto"@.len() != "off"@.len());
    }
    assert("flat"@ != "shaped"@ && "flat"@ != "off"@ && "on"@ != "shaped"@ && "on"@ != "off"@)
        by {
        assert("flat"@.len() != "shaped"@.len());
        assert("flat"@.len() != "off"@.len());
        assert("on"@.len() != "shaped"@.len());
        assert("on"@.len() != "off"@.len());
    }
    assert("shaped"@ != "off"@) by {
        assert("shaped"@.len() != "off"@.len());
    }
}

/// The text `t` given for the text key `k` reads.
pub open spec fn text_reads(k: Seq<char>, t: Seq<char>) -> bool {
    if k == "sig"@ {
        signature_named(t) is Some
    } else if k == "bpmUnit"@ {
        unit_named(t) is Some
    } else if k == "align"@ {
        align_named(t) is Some
    } else if k == "workflow"@ {
        workflow_named(t) is Some
    } else if k == "depth"@ {
        bit_depth_named(t) is Ok
    } else {
        dither_named(t) is Some
    }
}

/// The entry `k: v` can be read: a null, or a value of the kind `k` takes
/// that reads.
pub open spec fn entry_reads(k: Seq<char>, v: Parsed) -> bool {
    v == Parsed::Null || match field_kind(k) {
        FieldKind::Number | FieldKind::Count => v is Number,
        FieldKind::Flag => v is Bool,
        FieldKind::Text => v is String && text_reads(k, v->String_0),
        FieldKind::Unknown => false,
    }
}

/// An entry of a listing that cannot be read.
pub open spec fn unreadable() -> spec_fn((Seq<char>, Parsed)) -> bool {
    |e: (Seq<char>, Parsed)| !entry_reads(e.0, e.1)
}

/// Why one parameter cannot be read.
#[derive(Clone, Debug, PartialEq)]
pub enum ParamError {
    /// A key that names no parameter.
    Unknown(String),
    /// The key's value is not a number.
    ExpectedNumber(String),
    /// The key's value is not a number to count with.
    ExpectedCount(String),
    /// The key's value is not `true` or `false`.
    ExpectedFlag(String),
    /// The key's value is not a string.
    ExpectedText(String),
    /// The key's text, refused by the reader of that key.
    Invalid(String, Error),
    /// An `align` that is neither `loop` nor `grid`, as written.
    NotAnAlign(String),
    /// A `workflow` that is not `auto`, `warmup` or `foldback`, as written.
    NotAWorkflow(String),
    /// A `dither` that names no policy, as written.
    NotADither(String),
}

/// The error the unreadable text `t` of the text key `k` gives.
pub open spec fn text_error(k: Seq<char>, t: Seq<char>, e: ParamError) -> bool {
    if k == "sig"@ {
        e matches ParamError::Invalid(x, err) && x@ == k && signature_read(
            t,
            Err::<TimeSignature, Error>(err),
        )
    } else if k == "bpmUnit"@ {
        e matches ParamError::Invalid(x, err) && x@ == k && unit_read(t, Err::<BpmUnit, Error>(err))
    } else if k == "align"@ {
        e matches ParamError::NotAnAlign(x) && x@ == t
    } else if k == "workflow"@ {
        e matches ParamError::NotAWorkflow(x) && x@ == t
    } else if k == "depth"@ {
        e matches ParamError::Invalid(x, err) && x@ == k && depth_read(t, Err::<BitDepth, Error>(err))
    } else {
        e matches ParamError::NotADither(x) && x@ == t
    }
}

/// The error the unreadable entry `k: v` gives.
pub open spec fn entry_error(k: Seq<char>, v: Parsed, e: ParamError) -> bool {
    match field_kind(k) {
        FieldKind::Unknown => e matches ParamError::Unknown(x) && x@ == k,
        FieldKind::Number => e matches ParamError::ExpectedNumber(x) && x@ == k,
        FieldKind::Count => e matches ParamError::ExpectedCount(x) && x@ == k,
        FieldKind::Flag => e matches ParamError::ExpectedFlag(x) && x@ == k,
        FieldKind::Text => match v {
            Parsed::String(t) => text_error(k, t, e),
            _ => e matches ParamError::ExpectedText(x) && x@ == k,
        },
    }
}

/// The number text set for `k`.
pub open spec fn number_of(m: Map<Seq<char>, Parsed>, k: Seq<char>) -> Option<Seq<char>> {
    if m.contains_key(k) && m[k] is Number {
        Some(m[k]->Number_0)
    } else {
        None
    }
}

/// The flag set for `k`.
pub open spec fn flag_of(m: Map<Seq<char>, Parsed>, k: Seq<char>) -> Option<bool> {
    if m.contains_key(k) && m[k] is Bool {
        Some(m[k]->Bool_0)
    } else {
        None
    }
}

/// The text set for `k`.
pub open spec fn word_of(m: Map<Seq<char>, Parsed>, k: Seq<char>) -> Option<Seq<char>> {
    if m.contains_key(k) && m[k] is String {
        Some(m[k]->String_0)
    } else {
        None
    }
}

/// An optional text, by its characters.
pub open spec fn text_view(o: Option<String>) -> Option<Seq<char>> {
    match o {
        Some(s) => Some(s@),
        None => None,
    }
}

/// The tape character is named: any of its keys is set.
pub open spec fn tape_named(m: Map<Seq<char>, Parsed>) -> bool {
    flag_of(m, "tape"@) is Some || number_of(m, "wow"@) is Some || number_of(m, "flutter"@) is Some
        || number_of(m, "hfRolloffHz"@) is Some || number_of(m, "headBumpDb"@) is Some || number_of(
        m,
        "headBumpHz"@,
    ) is Some
}

/// Whether the tape character is switched on or off, when that is decided:
/// naming any amount switches it on, an explicit `tape` flag still wins, and
/// a `tape` given as null leaves the default.
pub open spec fn tape_switch(m: Map<Seq<char>, Parsed>) -> Option<bool> {
    if !tape_named(m) {
        None
    } else if flag_of(m, "tape"@) is Some {
        flag_of(m, "tape"@)
    } else if m.contains_key("tape"@) {
        None
    } else {
        Some(true)
    }
}

/// The tape character's part of the parameters.
pub struct TapeFields {
    /// Any tape key is set, so the character's parameters are the ones here.
    pub named: bool,
    /// On or off, when that is decided.
    pub enabled: Option<bool>,
    pub wow: Option<String>,
    pub flutter: Option<String>,
    pub hf_rolloff_hz: Option<String>,
    pub head_bump_db: Option<String>,
    pub head_bump_hz: Option<String>,
}

/// The parameters that were set, each as exactly as the library reads it.
pub struct ParamFields {
    pub bpm: Option<String>,
    pub prefer_name_tempo: Option<bool>,
    pub bars: Option<String>,
    pub prefer_name_bars: Option<bool>,
    pub skip: Option<String>,
    pub sig: Option<TimeSignature>,
    pub bpm_unit: Option<BpmUnit>,
    pub align: Option<Align>,
    /// `Some(None)` is `auto`: no workflow forced.
    pub workflow: Option<Option<Workflow>>,
    pub cents: Option<String>,
    pub semitones: Option<String>,
    pub target_bpm: Option<String>,
    pub snap: Option<bool>,
    pub snap_window: Option<String>,
    pub depth: Option<BitDepth>,
    pub normalize: Option<bool>,
    pub dither: Option<DitherPolicy>,
    pub dither_seed: Option<String>,
    pub fade_ms: Option<String>,
    pub no_fade: Option<bool>,
    /// A loop shorter than asked for is accepted.
    pub allow_short: bool,
    pub tape: TapeFields,
}

/// `p` holds what the readable entries `m` set.
pub open spec fn fields_read(m: Map<Seq<char>, Parsed>, p: ParamFields) -> bool {
    &&& text_view(p.bpm) == number_of(m, "bpm"@)
    &&& p.prefer_name_tempo == flag_of(m, "preferNameTempo"@)
    &&& text_view(p.bars) == number_of(m, "bars"@)
    &&& p.prefer_name_bars == flag_of(m, "preferNameBars"@)
    &&& text_view(p.skip) == number_of(m, "skip"@)
    &&& p.sig == match word_of(m, "sig"@) {
        Some(t) => signature_named(t),
        None => None,
    }
    &&& match word_of(m, "bpmUnit"@) {
        Some(t) => match unit_named(t) {
            Some(v) => p.bpm_unit matches Some(u) && u.value() == v,
            None => p.bpm_unit is None,
        },
        None => p.bpm_unit is None,
    }
    &&& p.align == match word_of(m, "align"@) {
        Some(t) => align_named(t),
        None => None,
    }
    &&& p.workflow == match word_of(m, "workflow"@) {
        Some(t) => workflow_named(t),
        None => None,
    }
    &&& text_view(p.cents) == number_of(m, "cents"@)
    &&& text_view(p.semitones) == number_of(m, "semitones"@)
    &&& text_view(p.target_bpm) == number_of(m, "targetBpm"@)
    &&& p.snap == flag_of(m, "snap"@)
    &&& text_view(p.snap_window) == number_of(m, "snapWindow"@)
    &&& p.depth == match word_of(m, "depth"@) {
        Some(t) => match bit_depth_named(t) {
            Ok(d) => Some(d),
            Err(_) => None,
        },
        None => None,
    }
    &&& p.normalize == flag_of(m, "normalize"@)
    &&& p.dither == match word_of(m, "dither"@) {
        Some(t) => dither_named(t),
        None => None,
    }
    &&& text_view(p.dither_seed) == number_of(m, "ditherSeed"@)
    &&& text_view(p.fade_ms) == number_of(m, "fadeMs"@)
    &&& p.no_fade == flag_of(m, "noFade"@)
    &&& p.allow_short == (flag_of(m, "allowShort"@) == Some(true))
    &&& p.tape.named == tape_named(m)
    &&& p.tape.enabled == tape_switch(m)
    &&& text_view(p.tape.wow) == number_of(m, "wow"@)
    &&& text_view(p.tape.flutter) == number_of(m, "flutter"@)
    &&& text_view(p.tape.hf_rolloff_hz) == number_of(m, "hfRolloffHz"@)
    &&& text_view(p.tape.head_bump_db) == number_of(m, "headBumpDb"@)
    &&& text_view(p.tape.head_bump_hz) == number_of(m, "headBumpHz"@)
}

/// What reading the parameters out of the listing `l` gives: the first
/// unreadable entry's error, or every parameter that was set.
pub open spec fn params_read(l: Seq<(Seq<char>, Parsed)>, r: Result<ParamFields, ParamError>) -> bool {
    match first_where(l, unreadable()) {
        Some(i) => r matches Err(e) && entry_error(l[i].0, l[i].1, e),
        None => r matches Ok(p) && fields_read(contents(l), p),
    }
}

/// What the key `k` takes.
fn kind_of(k: &Vec<char>) -> (r: FieldKind)
    ensures
        r == field_kind(k@),
{
    if spells(k, "bpm") || spells(k, "semitones") || spells(k, "cents") || spells(k, "targetBpm")
        || spells(k, "fadeMs") || spells(k, "wow") || spells(k, "flutter") || spells(
        k,
        "hfRolloffHz",
    ) || spells(k, "headBumpDb") || spells(k, "headBumpHz") {
        FieldKind::Number
    } else if spells(k, "bars") || spells(k, "skip") || spells(k, "snapWindow") || spells(
        k,
        "ditherSeed",
    ) {
        FieldKind::Count
    } else if spells(k, "preferNameTempo") || spells(k, "preferNameBars") || spells(k, "snap")
        || spells(k, "normalize") || spells(k, "noFade") || spells(k, "allowShort") || spells(
        k,
        "tape",
    ) {
        FieldKind::Flag
    } else if spells(k, "sig") || spells(k, "bpmUnit") || spells(k, "align") || spells(
        k,
        "workflow",
    ) || spells(k, "depth") || spells(k, "dither") {
        FieldKind::Text
    } else {
        FieldKind::Unknown
    }
}

/// The alignment `t` names.
fn align_word(t: &str) -> (r: Option<Align>)
    ensures
        r == align_named(t@),
{
    let v = chars_of(t);
    if spells(&v, "loop") {
        Some(Align::Loop)
    } else if spells(&v, "grid") {
        Some(Align::Grid)
    } else {
        None
    }
}

/// The workflow `t` names.
fn workflow_word(t: &str) -> (r: Option<Option<Workflow>>)
    ensures
        r == workflow_named(t@),
{
    let v = chars_of(t);
    if spells(&v, "auto") {
        Some(None)
    } else if spells(&v, "warmup") || spells(&v, "a") {
        Some(Some(Workflow::WarmupRender))
    } else if spells(&v, "foldback") || spells(&v, "b") {
        Some(Some(Workflow::TailFoldback))
    } else {
        None
    }
}

/// The dither policy `t` names.
fn dither_word(t: &str) -> (r: Option<DitherPolicy>)
    ensures
        r == dither_named(t@),
{
    let v = chars_of(t);
    if spells(&v, "auto") {
        Some(DitherPolicy::Auto)
    } else if spells(&v, "flat") || spells(&v, "on") {
        Some(DitherPolicy::Flat)
    } else if spells(&v, "shaped") {
        Some(DitherPolicy::Shaped)
    } else if spells(&v, "off") {
        Some(DitherPolicy::Off)
    } else {
        None
    }
}

/// The key, as a `String`.
fn key_string(k: &Vec<char>) -> (s: String)
    ensures
        s@ == k@,
{
    let s = string_of(k, 0, k.len());
    proof {
        assert(k@.subrange(0, k.len() as int) =~= k@);
    }
    s
}

/// Why the text `t` of the text key `k` does not read, if it does not.
fn check_text(k: &Vec<char>, t: &str) -> (r: Option<ParamError>)
    requires
        field_kind(k@) == FieldKind::Text,
    ensures
        r is None <==> text_reads(k@, t@),
        r matches Some(e) ==> text_error(k@, t@, e),
{
    if spells(k, "sig") {
        match TimeSignature::parse(t) {
            Ok(_) => None,
            Err(e) => Some(ParamError::Invalid(key_string(k), e)),
        }
    } else if spells(k, "bpmUnit") {
        match BpmUnit::parse(t) {
            Ok(_) => None,
            Err(e) => Some(ParamError::Invalid(key_string(k), e)),
        }
    } else if spells(k, "align") {
        match align_word(t) {
            Some(_) => None,
            None => Some(ParamError::NotAnAlign(t.to_owned())),
        }
    } else if spells(k, "workflow") {
        match workflow_word(t) {
            Some(_) => None,
            None => Some(ParamError::NotAWorkflow(t.to_owned())),
        }
    } else if spells(k, "depth") {
        match BitDepth::parse(t) {
            Ok(_) => None,
            Err(e) => Some(ParamError::Invalid(key_string(k), e)),
        }
    } else {
        match dither_word(t) {
            Some(_) => None,
            None => Some(ParamError::NotADither(t.to_owned())),
        }
    }
}

/// Why the entry `k: v` does not read, if it does not.
fn check_entry(k: &Vec<char>, v: &Value) -> (r: Option<ParamError>)
    ensures
        r is None <==> entry_reads(k@, v@),
        r matches Some(e) ==> entry_error(k@, v@, e),
{
    if let Value::Null = v {
        return None;
    }
    match kind_of(k) {
        FieldKind::Number => match v {
            Value::Number(_) => None,
            _ => Some(ParamError::ExpectedNumber(key_string(k))),
        },
        FieldKind::Count => match v {
            Value::Number(_) => None,
            _ => Some(ParamError::ExpectedCount(key_string(k))),
        },
        FieldKind::Flag => match v {
            Value::Bool(_) => None,
            _ => Some(ParamError::ExpectedFlag(key_string(k))),
        },
        FieldKind::Text => match v {
            Value::String(t) => check_text(k, t.as_str()),
            _ => Some(ParamError::ExpectedText(key_string(k))),
        },
        FieldKind::Unknown => Some(ParamError::Unknown(key_string(k))),
    }
}

/// The number text set for `key`.
fn number_field(fields: &Table<Value>, key: &str) -> (r: Option<String>)
    ensures
        text_view(r) == number_of(contents(fields.listing()), key@),
{
    match fields.get(key) {
        Some(v) => match v.number_text() {
            Some(t) => Some(t.to_owned()),
            None => None,
        },
        None => None,
    }
}

/// The flag set for `key`.
fn flag_field(fields: &Table<Value>, key: &str) -> (r: Option<bool>)
    ensures
        r == flag_of(contents(fields.listing()), key@),
{
    match fields.get(key) {
        Some(v) => v.as_bool(),
        None => None,
    }
}

/// The text set for `key`.
fn word_field<'a>(fields: &'a Table<Value>, key: &str) -> (r: Option<&'a str>)
    ensures
        match r {
            Some(t) => word_of(contents(fields.listing()), key@) == Some(t@),
            None => word_of(contents(fields.listing()), key@) is None,
        },
{
    match fields.get(key) {
        Some(v) => v.as_str(),
        None => None,
    }
}

/// The tape character's keys.
fn tape_fields(fields: &Table<Value>) -> (r: TapeFields)
    ensures
        r.named == tape_named(contents(fields.listing())),
        r.enabled == tape_switch(contents(fields.listing())),
        text_view(r.wow) == number_of(contents(fields.listing()), "wow"@),
        text_view(r.flutter) == number_of(contents(fields.listing()), "flutter"@),
        text_view(r.hf_rolloff_hz) == number_of(contents(fields.listing()), "hfRolloffHz"@),
        text_view(r.head_bump_db) == number_of(contents(fields.listing()), "headBumpDb"@),
        text_view(r.head_bump_hz) == number_of(contents(fields.listing()), "headBumpHz"@),
{
    let flag = flag_field(fields, "tape");
    let wow = number_field(fields, "wow");
    let flutter = number_field(fields, "flutter");
    let hf_rolloff_hz = number_field(fields, "hfRolloffHz");
    let head_bump_db = number_field(fields, "headBumpDb");
    let head_bump_hz = number_field(fields, "headBumpHz");
    let named = flag.is_some() || wow.is_some() || flutter.is_some() || hf_rolloff_hz.is_some()
        || head_bump_db.is_some() || head_bump_hz.is_some();
    let enabled = if !named {
        None
    } else if flag.is_some() {
        flag
    } else if fields.get("tape").is_some() {
        None
    } else {
        Some(true)
    };
    TapeFields { named, enabled, wow, flutter, hf_rolloff_hz, head_bump_db, head_bump_hz }
}

/// Reads the run parameters out of a flat JSON object's fields.
///
/// Entries are read in key order; the first that names no parameter, holds
/// a value of the wrong kind or text its reader refuses is the error. A null
/// is skipped. Otherwise every parameter that was set comes back, words read
/// into what they name and numbers kept as their text.
pub fn params_from_fields(fields: &Table<Value>) -> (r: Result<ParamFields, ParamError>)
    ensures
        params_read(fields.listing(), r),
{
    let ghost l = fields.listing();
    let n = fields.len();
    let mut i: usize = 0;
    while i < n
        invariant
            i <= n == l.len(),
            l == fields.listing(),
            forall|j: int| 0 <= j < i ==> entry_reads(#[trigger] l[j].0, l[j].1),
        decreases n - i,
    {
        let (k, v) = fields.entry(i);
        if let Some(e) = check_entry(k, v) {
            proof {
                assert forall|j: int| 0 <= j < i implies !unreadable()(#[trigger] l[j]) by {
                    assert(entry_reads(l[j].0, l[j].1));
                }
                lemma_first_where_at(l, unreadable(), i as int);
            }
            return Err(e);
        }
        i = i + 1;
    }
    proof {
        assert forall|j: int| 0 <= j < l.len() implies !unreadable()(#[trigger] l[j]) by {
            assert(entry_reads(l[j].0, l[j].1));
        }
        lemma_first_where_none(l, unreadable());
    }
    let sig = match word_field(fields, "sig") {
        Some(t) => match TimeSignature::parse(t) {
            Ok(x) => Some(x),
            Err(_) => None,
        },
        None => None,
    };
    let bpm_unit = match word_field(fields, "bpmUnit") {
        Some(t) => match BpmUnit::parse(t) {
            Ok(x) => Some(x),
            Err(_) => None,
        },
        None => None,
    };
    let align = match word_field(fields, "align") {
        Some(t) => align_word(t),
        None => None,
    };
    let workflow = match word_field(fields, "workflow") {
        Some(t) => workflow_word(t),
        None => None,
    };
    let depth = match word_field(fields, "depth") {
        Some(t) => match BitDepth::parse(t) {
            Ok(x) => Some(x),
            Err(_) => None,
        },
        None => None,
    };
    let dither = match word_field(fields, "dither") {
        Some(t) => dither_word(t),
        None => None,
    };
    let allow_short = match flag_field(fields, "allowShort") {
        Some(b) => b,
        None => false,
    };
    Ok(
        ParamFields {
            bpm: number_field(fields, "bpm"),
            prefer_name_tempo: flag_field(fields, "preferNameTempo"),
            bars: number_field(fields, "bars"),
            prefer_name_bars: flag_field(fields, "preferNameBars"),
            skip: number_field(fields, "skip"),
            sig,
            bpm_unit,
            align,
            workflow,
            cents: number_field(fields, "cents"),
            semitones: number_field(fields, "semitones"),
            target_bpm: number_field(fields, "targetBpm"),
            snap: flag_field(fields, "snap"),
            snap_window: number_field(fields, "snapWindow"),
            depth,
            normalize: flag_field(fields, "normalize"),
            dither,
            dither_seed: number_field(fields, "ditherSeed"),
            fade_ms: number_field(fields, "fadeMs"),
            no_fade: flag_field(fields, "noFade"),
            allow_short,
            tape: tape_fields(fields),
        },
    )
}

/// The refusal of a loop `short_by` frames short of `bars` bars.
pub open spec fn short_loop_message(short_by: nat, bars: nat) -> Seq<char> {
    decimal(short_by) + " frames short of a "@ + decimal(bars)
        + "-bar loop — the result would drift; set allowShort to accept it"@
}

/// A loop that came out short is refused unless a short loop was allowed:
/// a short loop drifts against a sequencer on every repeat.
pub fn check_short(short_by: u64, bars: u64, allow_short: bool) -> (r: Result<(), String>)
    ensures
        short_by > 0 && !allow_short ==> (r matches Err(m) && m@ == short_loop_message(
            short_by as nat,
            bars as nat,
        )),
        !(short_by > 0 && !allow_short) ==> r is Ok,
{
    if short_by > 0 && !allow_short {
        let mut m = String::new();
        push_decimal(&mut m, short_by as u128);
        push_text(&mut m, " frames short of a ");
        push_decimal(&mut m, bars as u128);
        push_text(&mut m, "-bar loop — the result would drift; set allowShort to accept it");
        proof {
            assert(m@ =~= short_loop_message(short_by as nat, bars as nat));
        }
        Err(m)
    } else {
        Ok(())
    }
}

} // verus!
