//! The words the embedding layer's reports use for the pipeline's choices.
//!
//! These are part of the wire format the host application reads, so they are
//! stable, short and free of spaces, unlike the human-readable labels the
//! command line prints.

use crate::analysis::Workflow;
use crate::pipeline::{BarsSource, TempoSource};
use vstd::prelude::*;

verus! {

/// The report's word for a workflow.
pub fn workflow_name(w: Workflow) -> (s: &'static str)
    ensures
        w == Workflow::WarmupRender ==> s@ == "warmup"@,
        w == Workflow::TailFoldback ==> s@ == "foldback"@,
        w == Workflow::AlreadyTrimmed ==> s@ == "trimmed"@,
        w == Workflow::Unclear ==> s@ == "unclear"@,
{
    match w {
        Workflow::WarmupRender => "warmup",
        Workflow::TailFoldback => "foldback",
        Workflow::AlreadyTrimmed => "trimmed",
        Workflow::Unclear => "unclear",
    }
}

/// The report's word for where the tempo came from.
pub fn tempo_source_name(s: TempoSource) -> (r: &'static str)
    ensures
        s == TempoSource::Given ==> r@ == "given"@,
        s == TempoSource::AcidChunk ==> r@ == "acid"@,
        s == TempoSource::Filename ==> r@ == "filename"@,
{
    match s {
        TempoSource::Given => "given",
        TempoSource::AcidChunk => "acid",
        TempoSource::Filename => "filename",
    }
}

/// The report's word for where the bar count came from.
pub fn bars_source_name(s: BarsSource) -> (r: &'static str)
    ensures
        s == BarsSource::Given ==> r@ == "given"@,
        s == BarsSource::Filename ==> r@ == "filename"@,
        s == BarsSource::FileLength ==> r@ == "fileLength"@,
{
    match s {
        BarsSource::Given => "given",
        BarsSource::Filename => "filename",
        BarsSource::FileLength => "fileLength",
    }
}

} // verus!
