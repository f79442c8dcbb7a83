//! Why a parse failed.
use vstd::prelude::*;

verus! {

/// The ways in which text can fail to parse.
#[derive(Clone, Copy, PartialEq, Eq, Structural, Debug)]
pub enum ParseError {
    /// No identifier, no `:` after it, or an empty value.
    MalformedDeclaration,
    /// No `{` opens the declaration block.
    UnterminatedSelector,
    /// No `}` closes the declaration block.
    UnterminatedBlock,
}

} // verus!
