use vstd::prelude::*;

verus! {

/// The closed set of failures that the store can report.
///
/// `Io` carries the text of an underlying filesystem error, `ObjectNotFound`
/// and `InvalidReference` carry the key that failed to resolve, and
/// `SafeTensorError` and `Other` carry descriptive text from a codec.
#[derive(Debug)]
pub enum WTSError {
    Io(String),
    EmptyRepository,
    ObjectNotFound(String),
    InvalidReference(String),
    SafeTensorError(String),
    Other(String),
}

} // verus!
