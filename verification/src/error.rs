//! The outcomes, other than success, of a lookup in the history.

use vstd::prelude::*;

verus! {

/// Why a lookup in the history came back without a row.
#[derive(Clone, Copy, Debug, PartialEq, Eq, Structural)]
pub enum JumpError {
    /// No row of the history has the path that was asked for.
    NotFound,
    /// No row of the history scores above zero against the query: there is
    /// nothing to jump to.
    EmptyResult,
}

} // verus!
