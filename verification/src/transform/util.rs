//! Spans of a document.

use vstd::prelude::*;

verus! {

/// A span within a document
#[derive(Copy, Clone, Debug, PartialEq, Eq, Structural)]
pub struct Span {
    /// Start of the span
    pub from: usize,
    /// End of the span
    pub to: usize,
}

} // verus!
