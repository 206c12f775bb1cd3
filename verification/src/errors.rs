use vstd::prelude::*;

verus! {

/// Generic error type: every failure in this crate carries a descriptive
/// message and nothing else.
#[derive(Debug)]
pub struct Error {
    /// Error message.
    pub message: String,
}

} // verus!
