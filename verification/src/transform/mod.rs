//! The document transformations.

pub mod mark_laws;
pub mod mark_step;
pub mod replace_step;
pub mod step;
pub mod util;

pub use mark_step::{AddMarkStep, RemoveMarkStep};
pub use replace_step::{ReplaceAroundStep, ReplaceStep};
pub use step::{StepError, StepResult};
pub use util::Span;

use crate::markdown::MarkdownNode;
use crate::model::view::content_size;
use mark_step::{mark_step, MarkChange};
use replace_step::{replace_around_step, replace_step};
use step::step_result;
use vstd::prelude::*;
use vstd::std_specs::cmp::PartialEqSpecImpl;

verus! {

/// A list of steps
pub type Steps = Vec<Step>;

/// Steps that can be applied on a document
#[derive(Debug)]
pub enum Step {
    /// Replace some content
    Replace(ReplaceStep),
    /// Replace around some content
    ReplaceAround(ReplaceAroundStep),
    /// Add a mark to a span
    AddMark(AddMarkStep),
    /// Remove a mark from a span
    RemoveMark(RemoveMarkStep),
}

impl Step {
    /// True when the step can be applied to the document: when the document
    /// and the step meet what the kind of step asks of them.
    pub open spec fn applies_to(self, doc: &MarkdownNode) -> bool {
        match self {
            Step::Replace(s) => {
                &&& s.span.from <= s.span.to
                &&& doc@.kind.parent()
                &&& s.slice@.well_formed()
                &&& content_size(doc@.content) + content_size(s.slice@.content) <= usize::MAX / 8
            },
            Step::ReplaceAround(s) => {
                &&& s.span.from <= s.gap_from
                &&& s.gap_from <= s.gap_to
                &&& s.gap_to <= s.span.to
                &&& doc@.kind.parent()
                &&& s.slice@.well_formed()
                &&& s.insert + s.slice.open_start <= usize::MAX
                &&& s.insert + s.slice.open_start > content_size(s.slice@.content) || s.insert
                    + s.slice.open_start + s.slice.open_end <= content_size(s.slice@.content)
                &&& content_size(doc@.content) + content_size(s.slice@.content) <= usize::MAX / 16
            },
            Step::AddMark(s) => {
                &&& s.span.from <= s.span.to
                &&& doc@.kind.parent()
                &&& content_size(doc@.content) <= usize::MAX / 16
            },
            Step::RemoveMark(s) => {
                &&& s.span.from <= s.span.to
                &&& doc@.kind.parent()
                &&& content_size(doc@.content) <= usize::MAX / 16
            },
        }
    }

    /// True when the step can be applied to the document.
    pub fn applies(&self, doc: &MarkdownNode) -> (r: bool)
        ensures
            r == self.applies_to(doc),
    {
        let size: usize = doc.content_size();
        let parent = !doc.is_leaf();
        match self {
            Self::Replace(s) => {
                let inner: usize = s.slice.content.size();
                s.span.from <= s.span.to && parent && s.slice.is_well_formed() && size
                    <= usize::MAX / 8 && inner <= usize::MAX / 8 - size
            },
            Self::ReplaceAround(s) => {
                let inner: usize = s.slice.content.size();
                let within = s.insert <= usize::MAX - s.slice.open_start && (s.insert
                    + s.slice.open_start > inner || (s.slice.open_end <= inner && s.insert
                    + s.slice.open_start <= inner - s.slice.open_end));
                s.span.from <= s.gap_from && s.gap_from <= s.gap_to && s.gap_to <= s.span.to
                    && parent && s.slice.is_well_formed() && within && size <= usize::MAX / 16
                    && inner <= usize::MAX / 16 - size
            },
            Self::AddMark(s) => s.span.from <= s.span.to && parent && size <= usize::MAX / 16,
            Self::RemoveMark(s) => s.span.from <= s.span.to && parent && size <= usize::MAX / 16,
        }
    }

    /// Applies the step to the document, if it can be applied to it: there
    /// is no result where it cannot.
    pub fn try_apply(&self, doc: &MarkdownNode) -> (r: Option<StepResult>)
        ensures
            r is Some == self.applies_to(doc),
            r matches Some(done) ==> step_result(done) == match *self {
                Step::Replace(s) => replace_step(doc@, s),
                Step::ReplaceAround(s) => replace_around_step(doc@, s),
                Step::AddMark(s) => mark_step(doc@, s.span, MarkChange::Add(s.mark@)),
                Step::RemoveMark(s) => mark_step(doc@, s.span, MarkChange::Remove(s.mark@)),
            },
    {
        if self.applies(doc) {
            Some(self.apply(doc))
        } else {
            None
        }
    }

    /// Apply the step to the given node
    pub fn apply(&self, doc: &MarkdownNode) -> (r: StepResult)
        requires
            self.applies_to(doc),
        ensures
            step_result(r) == match *self {
                Step::Replace(s) => replace_step(doc@, s),
                Step::ReplaceAround(s) => replace_around_step(doc@, s),
                Step::AddMark(s) => mark_step(doc@, s.span, MarkChange::Add(s.mark@)),
                Step::RemoveMark(s) => mark_step(doc@, s.span, MarkChange::Remove(s.mark@)),
            },
    {
        match self {
            Self::Replace(r_step) => r_step.apply(doc),
            Self::ReplaceAround(ra_step) => ra_step.apply(doc),
            Self::AddMark(am_step) => am_step.apply(doc),
            Self::RemoveMark(rm_step) => rm_step.apply(doc),
        }
    }
}

impl PartialEq for Step {
    fn eq(&self, other: &Self) -> (r: bool) {
        match (self, other) {
            (Step::Replace(a), Step::Replace(b)) => a == b,
            (Step::ReplaceAround(a), Step::ReplaceAround(b)) => a == b,
            (Step::AddMark(a), Step::AddMark(b)) => a == b,
            (Step::RemoveMark(a), Step::RemoveMark(b)) => a == b,
            _ => false,
        }
    }
}

impl PartialEqSpecImpl for Step {
    open spec fn obeys_eq_spec() -> bool {
        true
    }

    open spec fn eq_spec(&self, other: &Self) -> bool {
        match (*self, *other) {
            (Step::Replace(a), Step::Replace(b)) => a.span == b.span && a.structure
                == b.structure && a.slice@ == b.slice@,
            (Step::ReplaceAround(a), Step::ReplaceAround(b)) => a.span == b.span && a.gap_from
                == b.gap_from && a.gap_to == b.gap_to && a.insert == b.insert && a.structure
                == b.structure && a.slice@ == b.slice@,
            (Step::AddMark(a), Step::AddMark(b)) => a.span == b.span && a.mark@ == b.mark@,
            (Step::RemoveMark(a), Step::RemoveMark(b)) => a.span == b.span && a.mark@ == b.mark@,
            _ => false,
        }
    }
}

impl Eq for Step {

}

} // verus!
