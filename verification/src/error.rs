//! The crate's error type.

use vstd::prelude::*;

verus! {

/// Error returned by a function whose parameters are out of their valid range.
#[derive(Debug, Clone, PartialEq)]
pub enum SignalError {
    /// A parameter precondition was violated (size, range, shape...). The message
    /// says which parameter and why.
    InvalidInput(String),
}

} // verus!
