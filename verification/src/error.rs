//! The error taxonomy of the ledger: every failure is a permanent rejection
//! of one call's arguments against one state.

use vstd::prelude::*;

verus! {

/// Construction failure: the end of the voting window does not lie strictly
/// after its start.
#[derive(Clone, Copy, Debug, PartialEq, Eq, Structural)]
pub struct StartNotBeforeEnd;

/// The ways a vote cast can be rejected.
#[derive(Clone, Copy, Debug, PartialEq, Eq, Structural)]
pub enum VotingError {
    /// The new vote would push the participant's used power above its total.
    NotEnoughVotingPower,
    /// The vote names a project id that is not in the catalog.
    ProjectDoesNotExists,
    /// The voting identity has no roster entry.
    NotAParticipant,
    /// The vote arrived before the window opened.
    VotingNotStarted,
    /// The vote arrived at or after the window's end.
    VotingEnded,
}

} // verus!
