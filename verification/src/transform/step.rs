//! What applying a step gives.

use crate::markdown::MarkdownNode;
use crate::model::node::SliceError;
use crate::model::replace::ReplaceError;
use crate::model::resolved_pos::ResolveErr;
use crate::model::slice::InsertError;
use crate::model::view::NodeView;
use vstd::prelude::*;

verus! {

/// Different ways a step application can fail
#[derive(Debug, Copy, Clone, PartialEq, Eq, Structural)]
pub enum StepError {
    /// Structure replace would overwrite content
    WouldOverwrite,
    /// Structure gap-replace would overwrite content
    GapWouldOverwrite,
    /// Gap is not a flat range
    GapNotFlat,
    /// Content does not fit in gap
    GapNotFit,
    /// Invalid indices
    Resolve(ResolveErr),
    /// Invalid resolve
    Replace(ReplaceError),
    /// Invalid slice
    Slice(SliceError),
    /// Insert error
    Insert(InsertError),
}

/// The result of applying a step. Contains either a new document or a failure value.
pub type StepResult = Result<MarkdownNode, StepError>;

/// What the result of a step holds, as plain values.
pub open spec fn step_result(r: StepResult) -> Result<NodeView, StepError> {
    match r {
        Ok(n) => Ok(n@),
        Err(e) => Err(e),
    }
}

/// The result of a replacement as the result of a step.
pub open spec fn replaced(r: Result<NodeView, ReplaceError>) -> Result<NodeView, StepError> {
    match r {
        Ok(n) => Ok(n),
        Err(e) => Err(StepError::Replace(e)),
    }
}

} // verus!
