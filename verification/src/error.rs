//! The errors that reading a document can end in.
use vstd::prelude::*;

verus! {

/// A byte range of the input.
#[derive(Clone, Copy, Debug, PartialEq, Eq)]
pub struct Span {
    pub start: usize,
    pub end: usize,
}

/// Why a document could not be read as the requested value.
#[derive(Clone, Debug, PartialEq, Eq)]
pub enum DeserializerError {
    /// A value was asked for where no `key = value` line is.
    ExpectedValueNode,
    /// A structure was asked for where no `key = value` line is.
    ExpectedKeyValuePair,
    /// A line inside a sequence is neither an index nor its length marker.
    ExpectedSequenece { unexpected: Span },
    /// An atom could not be read as the requested primitive.
    InvalidAtom { span: Span },
    /// A message raised while a value was built from the document.
    Custom(String),
}

} // verus!
