//! The values a story surfaces to its caller: finished lines of text and
//! presentable choices, and the collection of knots that makes up a story.

use vstd::prelude::*;
use crate::knot::Knot;
use crate::namemap::NameMap;

verus! {

/// A finished line of text, ready to be displayed.
#[derive(Clone, Debug, PartialEq)]
pub struct Line {
    pub text: String,
    pub tags: Vec<String>,
}

/// Buffer of finished lines.
pub type LineBuffer = Vec<Line>;

/// A choice as presented to the caller.
#[derive(Clone, Debug, PartialEq)]
pub struct Choice {
    /// Text shown in the choice menu.
    pub text: String,
    /// Tags of the selection text.
    pub tags: Vec<String>,
    /// The choice's position in the authored branch list, which is how the
    /// caller selects it.
    pub index: usize,
}

/// All knots of a story, keyed by name.
pub type Knots = NameMap<Knot>;

} // verus!
