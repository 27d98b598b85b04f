//! Errors from parsing a story and from running one.

use vstd::prelude::*;
use crate::address::Address;
use crate::follow::ChoiceInfo;
use crate::story::Choice;

verus! {

/// Why a knot or stitch name line could not be read.
#[derive(Clone, Debug, PartialEq)]
pub enum KnotNameError {
    /// The line carries no name: no marker, or nothing besides markers and
    /// whitespace.
    NoNamePresent,
    /// The name holds a character that identifiers do not allow.
    InvalidCharacter(char),
}

/// Errors from reading a single knot or stitch out of its group of lines.
#[derive(Clone, Debug, PartialEq)]
pub enum KnotError {
    /// The group has no lines at all.
    Empty,
    /// The name line is malformed.
    InvalidName { line: String, kind: KnotNameError },
    /// A stitch group after the first carries a marker but no name, which the
    /// division into groups should have made impossible.
    MissingStitchName { stitch_index: usize },
}

/// Errors from parsing a complete story source.
#[derive(Clone, Debug, PartialEq)]
pub enum ParseError {
    /// No content lines survive comment and blank filtering.
    Empty,
    /// A knot group could not be parsed.
    Knot(KnotError),
}

/// Errors from running a story.
#[derive(Clone, Debug, PartialEq)]
pub enum InklingError {
    /// An invariant of the runtime itself was broken.
    Internal { message: String },
    /// A referenced knot or stitch is not present in the story.
    InvalidAddress { knot: String, stitch: Option<String> },
    /// An invalid choice index was used to resume the story.
    InvalidChoice {
        /// Index the story was resumed with.
        index: usize,
        /// The choice, if it could be resolved from the presented list.
        choice: Option<Choice>,
        /// The full authored choice list at the branching point.
        internal_choices: Vec<ChoiceInfo>,
        /// Every authored choice, paired with whether it was shown.
        presented_choices: Vec<(bool, Choice)>,
    },
    /// A variable name is not present in the story.
    InvalidVariable { name: String },
    /// `make_choice` was called while the story was not at a choice.
    MadeChoiceWithoutChoice,
    /// A branching point had no presentable and no fallback choice.
    OutOfChoices { address: Address },
    /// The story ran out of content without reaching an explicit end.
    OutOfContent,
    /// A variable cannot be turned into text.
    PrintInvalidVariable { name: String, value: String },
    /// `resume` was called before `start`.
    ResumeBeforeStart,
    /// `start` was called on a story that is already in progress.
    StartOnStoryInProgress,
}

} // verus!
