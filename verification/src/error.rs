//! The ways in which a run can fail.

use vstd::prelude::*;

verus! {

/// A fatal condition of a run. An exhausted local search is none: it
/// drives backtracking.
#[derive(PartialEq, Eq, Structural, Clone, Copy, Debug)]
pub enum AbtError {
    /// The agent of this id found no value and had no lower agent left to
    /// blame: the instance has no solution, or the protocol went wrong.
    BacktrackUnderflow(usize),
    /// A message was addressed to the agent of this id after it had
    /// halted.
    ChannelClosed(usize),
    /// The rounds that the caller allowed ran out before the agents
    /// halted.
    RoundLimit,
}

} // verus!
