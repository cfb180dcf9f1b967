//! Which workflow a file was rendered for, and what each one implies.
//!
//! Measuring the file — where its tail decays, how many loop lengths it
//! spans — is sample arithmetic. What follows from the answer is decided here.

use vstd::prelude::*;

verus! {

/// Which of the two paths a file was rendered for.
#[derive(Copy, Clone, Debug, PartialEq, Eq, Structural)]
pub enum Workflow {
    /// About twice the loop plus a tail: bars N+1..2N are already the settled
    /// loop. Cut straight, discard the tail. `skip = bars`.
    WarmupRender,
    /// About one loop plus a tail: the tail has to be folded back onto the
    /// head to get the settled state. `skip = 0`.
    TailFoldback,
    /// Exactly the requested length with no tail at all — the file has already
    /// been through this. Nothing to cut, and nothing to fold back.
    AlreadyTrimmed,
    /// Neither shape fits — the caller has to decide.
    Unclear,
}

/// Bars to skip before the loop starts, for each workflow.
pub open spec fn skip_model(workflow: Workflow, loop_bars: u64) -> u64 {
    match workflow {
        Workflow::TailFoldback | Workflow::AlreadyTrimmed => 0,
        Workflow::WarmupRender | Workflow::Unclear => loop_bars,
    }
}

impl Workflow {
    /// Bars of warmup to skip for a loop of `loop_bars` bars.
    ///
    /// A warmup render skips one whole loop. `Unclear` falls back to the same
    /// straight cut one loop in: audible and reversible, where a wrong
    /// foldback quietly doubles the tails.
    pub fn default_skip(self, loop_bars: u64) -> (r: u64)
        ensures
            r == skip_model(self, loop_bars),
    {
        match self {
            Workflow::TailFoldback | Workflow::AlreadyTrimmed => 0,
            Workflow::WarmupRender | Workflow::Unclear => loop_bars,
        }
    }
}

/// How the command line's report describes a workflow.
pub fn describe(w: Workflow) -> (s: &'static str)
    ensures
        w == Workflow::WarmupRender ==> s@ == "warmup render (path A)"@,
        w == Workflow::TailFoldback ==> s@ == "one loop plus tail (path B)"@,
        w == Workflow::AlreadyTrimmed ==> s@ == "already trimmed"@,
        w == Workflow::Unclear ==> s@ == "shape unclear, defaulting to a straight cut"@,
{
    match w {
        Workflow::WarmupRender => "warmup render (path A)",
        Workflow::TailFoldback => "one loop plus tail (path B)",
        Workflow::AlreadyTrimmed => "already trimmed",
        Workflow::Unclear => "shape unclear, defaulting to a straight cut",
    }
}

} // verus!
