//! The ways in which parsing can fail.

use vstd::prelude::*;

verus! {

/// Why a text was rejected. Parsing stops at the first fault; no partial tree
/// is handed out.
#[derive(Debug, Clone, Copy, PartialEq, Eq, Structural)]
pub enum ParseError {
    /// An opening or closing delimiter is missing or of the wrong kind, or the
    /// `:` between a key and its value is missing.
    StructuralError,
    /// An object key does not start with `"`, or its closing `"` is missing.
    KeyError,
    /// A scalar is not a string, a number, `null`, `true` or `false`.
    ValueError,
    /// Something other than whitespace follows an empty root object.
    TrailingContentError,
}

impl ParseError {
    /// A short description of the fault.
    pub fn message(&self) -> (text: &'static str)
        ensures
            text@ == match *self {
                ParseError::StructuralError => "structural error"@,
                ParseError::KeyError => "key error"@,
                ParseError::ValueError => "value error"@,
                ParseError::TrailingContentError => "trailing content"@,
            },
    {
        match self {
            ParseError::StructuralError => "structural error",
            ParseError::KeyError => "key error",
            ParseError::ValueError => "value error",
            ParseError::TrailingContentError => "trailing content",
        }
    }
}

} // verus!
