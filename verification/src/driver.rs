//! The poll loop's decisions: when one cycle of reconciliation and command
//! handling ends the run, and when it continues.

use vstd::prelude::*;

use crate::escalate::Command;
use crate::state::TrackedState;

verus! {

/// What one cycle decides about the loop.
#[derive(Clone, Copy, Debug, PartialEq, Eq, Structural)]
pub enum LoopControl {
    /// Poll again.
    Continue,
    /// Nothing is tracked and nothing is orphaned: the normal exit.
    ExitEmpty,
    /// The operator quit, or the input source went away.
    ExitQuit,
}

/// The exit condition of the poll loop: it ends exactly when the tracked
/// state and the orphan map are simultaneously empty — and at no other
/// time, unless the command is an explicit quit (which covers end of
/// input). Emptiness is checked first, right after reconciliation, so an
/// empty state exits even when a quit arrives in the same cycle.
pub fn cycle_control(state: &TrackedState, cmd: Command) -> (c: LoopControl)
    ensures
        c is ExitEmpty <==> state.spec_is_empty(),
        c is ExitQuit <==> (!state.spec_is_empty() && cmd is Quit),
        c is Continue <==> (!state.spec_is_empty() && !(cmd is Quit)),
{
    if state.is_empty() {
        LoopControl::ExitEmpty
    } else {
        match cmd {
            Command::Quit => LoopControl::ExitQuit,
            _ => LoopControl::Continue,
        }
    }
}

} // verus!
