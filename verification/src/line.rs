//! Internal representations of a single line of story text and of an authored
//! choice, together with builders for constructing them.

use vstd::prelude::*;
use core::cmp::Ordering;

verus! {

/// Relies on `Ordering::clone`: `Ordering` is a plain `Copy` enum, so its
/// clone is the value itself.
pub assume_specification[ <Ordering as Clone>::clone ](o: &Ordering) -> (r: Ordering)
    ensures
        r == o,
;

/// One line of story content as the follow engine collects it.
///
/// `glue_begin` / `glue_end` suppress the newline that would otherwise join
/// this line to its neighbour.
#[derive(Clone, Debug, PartialEq)]
pub struct InternalLine {
    pub text: String,
    pub tags: Vec<String>,
    pub glue_begin: bool,
    pub glue_end: bool,
}

/// A visit-count comparison guarding a choice.
#[derive(Clone, Debug, PartialEq)]
pub enum Condition {
    /// Holds when the number of visits to `name` compares to `rhs_value`
    /// as `ordering` says; `not` negates the outcome.
    NumVisits { name: String, rhs_value: i32, ordering: Ordering, not: bool },
}

/// An authored choice: what the reader sees, what is printed when it is
/// taken, and the flags and conditions that govern whether it is presented.
#[derive(Clone, Debug, PartialEq)]
pub struct InternalChoice {
    pub selection_text: InternalLine,
    pub display_text: InternalLine,
    pub conditions: Vec<Condition>,
    pub is_sticky: bool,
    pub is_fallback: bool,
}

impl InternalLine {
    /// A plain line holding `text`, with no tags and no glue.
    pub fn from_string(text: &str) -> (r: InternalLine)
        ensures
            r.text@ == text@,
            r.tags@.len() == 0,
            !r.glue_begin,
            !r.glue_end,
    {
        InternalLine { text: text.to_owned(), tags: Vec::new(), glue_begin: false, glue_end: false }
    }

}

/// A copy of a vector of strings holding the same strings.
pub fn clone_strings(v: &Vec<String>) -> (r: Vec<String>)
    ensures
        r@ == v@,
{
    let mut r: Vec<String> = Vec::new();
    let mut i: usize = 0;
    while i < v.len()
        invariant
            i <= v@.len(),
            r@ == v@.subrange(0, i as int),
        decreases v@.len() - i,
    {
        r.push(v[i].clone());
        i = i + 1;
        proof {
            assert(r@ =~= v@.subrange(0, i as int));
        }
    }
    proof {
        assert(r@ =~= v@);
    }
    r
}

/// An exact copy of a condition.
pub fn clone_condition(c: &Condition) -> (r: Condition)
    ensures
        r == *c,
{
    match c {
        Condition::NumVisits { name, rhs_value, ordering, not } => Condition::NumVisits {
            name: name.clone(),
            rhs_value: *rhs_value,
            ordering: *ordering,
            not: *not,
        },
    }
}

/// Step-by-step construction of an [`InternalLine`].
pub struct InternalLineBuilder {
    pub line: InternalLine,
}

impl InternalLineBuilder {
    pub fn from_string(text: &str) -> (r: InternalLineBuilder)
        ensures
            r.line.text@ == text@,
            r.line.tags@.len() == 0,
            !r.line.glue_begin,
            !r.line.glue_end,
    {
        InternalLineBuilder { line: InternalLine::from_string(text) }
    }

    pub fn with_glue_begin(self) -> (r: InternalLineBuilder)
        ensures
            r.line == (InternalLine { glue_begin: true, ..self.line }),
    {
        InternalLineBuilder { line: InternalLine { glue_begin: true, ..self.line } }
    }

    pub fn with_glue_end(self) -> (r: InternalLineBuilder)
        ensures
            r.line == (InternalLine { glue_end: true, ..self.line }),
    {
        InternalLineBuilder { line: InternalLine { glue_end: true, ..self.line } }
    }

    pub fn with_tags(self, tags: &Vec<String>) -> (r: InternalLineBuilder)
        ensures
            r.line.text == self.line.text,
            r.line.tags@ == tags@,
            r.line.glue_begin == self.line.glue_begin,
            r.line.glue_end == self.line.glue_end,
    {
        InternalLineBuilder { line: InternalLine { tags: clone_strings(tags), ..self.line } }
    }

    pub fn build(self) -> (r: InternalLine)
        ensures
            r == self.line,
    {
        self.line
    }
}

/// Step-by-step construction of an [`InternalChoice`].
pub struct InternalChoiceBuilder {
    pub choice: InternalChoice,
}

impl InternalChoiceBuilder {
    /// A choice whose selection and display text both show `text`.
    pub fn from_string(text: &str) -> (r: InternalChoiceBuilder)
        ensures
            r.choice.selection_text.text@ == text@,
            r.choice.selection_text.tags@.len() == 0,
            !r.choice.selection_text.glue_begin,
            !r.choice.selection_text.glue_end,
            r.choice.display_text.text@ == text@,
            r.choice.conditions@.len() == 0,
            !r.choice.is_sticky,
            !r.choice.is_fallback,
    {
        InternalChoiceBuilder {
            choice: InternalChoice {
                selection_text: InternalLine::from_string(text),
                display_text: InternalLine::from_string(text),
                conditions: Vec::new(),
                is_sticky: false,
                is_fallback: false,
            },
        }
    }

    /// A choice whose selection text shows `text`.
    pub fn from_selection_string(text: &str) -> (r: InternalChoiceBuilder)
        ensures
            r.choice.selection_text.text@ == text@,
            r.choice.selection_text.tags@.len() == 0,
            !r.choice.selection_text.glue_begin,
            !r.choice.selection_text.glue_end,
            r.choice.display_text.text@ == text@,
            r.choice.conditions@.len() == 0,
            !r.choice.is_sticky,
            !r.choice.is_fallback,
    {
        InternalChoiceBuilder::from_string(text)
    }

    pub fn with_condition(self, condition: &Condition) -> (r: InternalChoiceBuilder)
        ensures
            r.choice.conditions@ == self.choice.conditions@.push(*condition),
            r.choice.selection_text == self.choice.selection_text,
            r.choice.display_text == self.choice.display_text,
            r.choice.is_sticky == self.choice.is_sticky,
            r.choice.is_fallback == self.choice.is_fallback,
    {
        let mut choice = self.choice;
        choice.conditions.push(clone_condition(condition));
        InternalChoiceBuilder { choice }
    }

    /// Attach tags to the selection text.
    pub fn with_tags(self, tags: &Vec<String>) -> (r: InternalChoiceBuilder)
        ensures
            r.choice.selection_text.text == self.choice.selection_text.text,
            r.choice.selection_text.tags@ == tags@,
            r.choice.selection_text.glue_begin == self.choice.selection_text.glue_begin,
            r.choice.selection_text.glue_end == self.choice.selection_text.glue_end,
            r.choice.display_text == self.choice.display_text,
            r.choice.conditions@ == self.choice.conditions@,
            r.choice.is_sticky == self.choice.is_sticky,
            r.choice.is_fallback == self.choice.is_fallback,
    {
        let mut choice = self.choice;
        choice.selection_text = InternalLine { tags: clone_strings(tags), ..choice.selection_text };
        InternalChoiceBuilder { choice }
    }

    pub fn is_sticky(self) -> (r: InternalChoiceBuilder)
        ensures
            r.choice == (InternalChoice { is_sticky: true, ..self.choice }),
    {
        InternalChoiceBuilder { choice: InternalChoice { is_sticky: true, ..self.choice } }
    }

    pub fn is_fallback(self) -> (r: InternalChoiceBuilder)
        ensures
            r.choice == (InternalChoice { is_fallback: true, ..self.choice }),
    {
        InternalChoiceBuilder { choice: InternalChoice { is_fallback: true, ..self.choice } }
    }

    pub fn build(self) -> (r: InternalChoice)
        ensures
            r == self.choice,
    {
        self.choice
    }
}

} // verus!
