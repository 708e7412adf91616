use vstd::prelude::*;

verus! {

/// Spec-level form of a parse failure: the 1-based source row and the
/// diagnostic text.
pub struct CorruptSpec {
    pub row: int,
    pub description: Seq<char>,
}

/// Raised by the scanner or the tree builder for any grammar or structural
/// violation. `row` is the 1-based source line the violation was found on.
#[derive(Debug)]
pub struct JecsCorruptedDataError {
    pub row: usize,
    pub description: String,
}

impl View for JecsCorruptedDataError {
    type V = CorruptSpec;

    open spec fn view(&self) -> CorruptSpec {
        CorruptSpec { row: self.row as int, description: self.description@ }
    }
}

/// Raised by the shape accessors when the caller's expectation does not match
/// the node's actual kind.
#[derive(Debug)]
pub struct JecsWrongEntryTypeError {
    pub expected_type: String,
    pub encountered_type: String,
}

/// Raised by the typed coercions when a scalar's text cannot be interpreted
/// as the requested semantic type.
#[derive(Debug)]
pub struct JecsIncompatibleOrMalformedError {
    pub data_type: String,
    pub value: String,
}

/// Either kind of failure a typed coercion can produce.
#[derive(Debug)]
pub enum JecsDataError {
    WrongType(JecsWrongEntryTypeError),
    Malformed(JecsIncompatibleOrMalformedError),
}

/// A whole-input parse either fails because the bytes are not valid text, or
/// because the line grammar or tree structure is violated.
#[derive(Debug)]
pub enum JecsParseError {
    InvalidText,
    Corrupted(JecsCorruptedDataError),
}

} // verus!
