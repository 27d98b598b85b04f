//! Events produced while following a story, and the buffers the follow
//! engine fills.

use vstd::prelude::*;
use crate::error::InklingError;
use crate::line::{InternalChoice, InternalLine};

verus! {

/// Result of following a story until it yields.
pub type FollowResult = Result<EncounteredEvent, InklingError>;

/// Buffer of lines collected while following a story, before text assembly.
pub type LineDataBuffer = Vec<InternalLine>;

/// What action is prompted by following a story.
#[derive(Clone, Debug, PartialEq)]
pub enum EncounteredEvent {
    /// Choice for the user.
    BranchingChoice(Vec<ChoiceInfo>),
    /// Divert to a new knot with the given name.
    Divert(String),
    /// Finished with the current node or story.
    Done,
}

/// Information about a branching choice encountered in the story.
#[derive(Clone, Debug, PartialEq)]
pub struct ChoiceInfo {
    /// Number of times that the branch (not the branching node) has been
    /// taken.
    pub num_visited: u32,
    /// Choice data to process before presenting to the user.
    pub choice_data: InternalChoice,
}

} // verus!
