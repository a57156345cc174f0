use vstd::prelude::*;

use crate::StateId;

verus! {

/// The errors that operations of this library report.
#[derive(Debug, PartialEq, Eq)]
pub enum FstError {
    /// An operation referred to a state that does not exist.
    NoSuchState(StateId),
    /// Malformed serialized data; the string tells where.
    InvalidFormat(String),
    /// Shortest distance did not settle within its round limit.
    NonConvergent,
    /// An index, or a list of indices, does not fit what it indexes.
    IndexOutOfRange,
    /// A weight was divided by zero.
    DivisionByZero,
}

} // verus!
