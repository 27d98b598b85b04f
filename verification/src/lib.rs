//! A runtime core for a branching-narrative scripting language.
//!
//! Stories are plain text organized into named sections ("knots") and
//! sub-sections ("stitches"), interleaved with branching choices, visit-count
//! conditions and textual "glue" directives.  This crate provides the
//! structural parser that groups source lines into knots and stitches, the
//! story graph those produce, the text-assembly pass that applies the glue
//! whitespace rules to an output buffer, and the choice-filtering pipeline
//! that decides which authored choices may be presented to the reader.
pub mod text;
pub mod line;
pub mod error;
pub mod follow;
pub mod story;
pub mod namemap;
pub mod knot;
pub mod address;
pub mod process;
pub mod parse;
pub mod laws;
