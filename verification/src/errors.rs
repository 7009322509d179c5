use vstd::prelude::*;

verus! {

/// The recoverable error kinds that the library's operations report.
#[derive(Clone, Copy, Debug, PartialEq, Eq, Structural)]
pub enum TodoError {
    /// A due date was supplied that is not a valid `YYYY-MM-DD` calendar date.
    InvalidDateFormat,
    /// An operation referenced an id that no task in the store carries.
    NotFound,
    /// Persisted text does not parse as a well-formed task list.
    ParseError,
}

} // verus!
