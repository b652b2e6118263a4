//! Summarising a book chapter by chapter: the decision made after each
//! chapter.
use vstd::prelude::*;

verus! {

/// After this many failures in a row the run gives up.
pub const MAX_FAILURES: u32 = 3;

/// What came of one chapter.
pub enum EnrichEvent {
    /// The run was cancelled before the chapter.
    Cancelled,
    /// The chapter was summarised (`ok`) or failed; `listener_gone` when
    /// nobody took its progress report.
    Finished { ok: bool, listener_gone: bool },
}

/// What to do next.
#[derive(PartialEq, Eq, Structural)]
pub enum EnrichAction {
    /// Go on to the next chapter.
    Next,
    /// End the run quietly.
    Stop,
    /// End the run with an error: too many failures in a row.
    GiveUp,
}

/// The failures in a row so far.
#[derive(PartialEq, Eq, Structural, Clone, Copy)]
pub struct EnrichState {
    pub failures: u32,
}

pub open spec fn enrich_step_spec(s: EnrichState, ev: EnrichEvent) -> (EnrichState, EnrichAction) {
    match ev {
        EnrichEvent::Cancelled => (s, EnrichAction::Stop),
        EnrichEvent::Finished { ok, listener_gone } => {
            let n = if ok { 0 } else if s.failures < u32::MAX { (s.failures + 1) as u32 } else { s.failures };
            let t = EnrichState { failures: n };
            if listener_gone {
                (t, EnrichAction::Stop)
            } else if n >= MAX_FAILURES {
                (t, EnrichAction::GiveUp)
            } else {
                (t, EnrichAction::Next)
            }
        },
    }
}

/// One decision of the run: a cancelled run stops; a summarised chapter
/// clears the failure count and a failed one adds to it; when nobody
/// listens any more the run stops, and three failures in a row end it with
/// an error.
pub fn enrich_step(s: EnrichState, ev: EnrichEvent) -> (r: (EnrichState, EnrichAction))
    ensures
        r == enrich_step_spec(s, ev),
{
    match ev {
        EnrichEvent::Cancelled => (s, EnrichAction::Stop),
        EnrichEvent::Finished { ok, listener_gone } => {
            let n = if ok {
                0
            } else if s.failures < u32::MAX {
                s.failures + 1
            } else {
                s.failures
            };
            let t = EnrichState { failures: n };
            if listener_gone {
                (t, EnrichAction::Stop)
            } else if n >= MAX_FAILURES {
                (t, EnrichAction::GiveUp)
            } else {
                (t, EnrichAction::Next)
            }
        },
    }
}

/// How many chapters the progress report counts as done after chapter
/// `index` (zero-based): the chapter itself only when it succeeded.
pub fn enrich_done(index: u32, ok: bool) -> (r: u32)
    requires
        index < u32::MAX,
    ensures
        r == (if ok { index + 1 } else { index as int }),
{
    if ok {
        index + 1
    } else {
        index
    }
}

/// A success always clears the count: the run never gives up right after a
/// chapter that worked.
pub proof fn success_never_gives_up(s: EnrichState, gone: bool)
    ensures
        enrich_step_spec(s, EnrichEvent::Finished { ok: true, listener_gone: gone }).0.failures == 0,
        enrich_step_spec(s, EnrichEvent::Finished { ok: true, listener_gone: gone }).1 != EnrichAction::GiveUp,
{
}

} // verus!
