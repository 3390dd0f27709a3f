//! Errors of content matching.

use vstd::prelude::*;

verus! {

/// Error on content matching
#[derive(Debug, Copy, Clone, PartialEq, Eq, Structural)]
pub enum ContentMatchError {
    /// Called contentMatchAt on a node with invalid content
    InvalidContent,
}

} // verus!
