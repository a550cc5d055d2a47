//! The error of the collection as a whole.

use vstd::prelude::*;

verus! {

/// An error that carries its reason as text.
#[derive(Debug)]
pub struct RustyError {
    reason: String,
}

impl RustyError {
    /// The reason of the error.
    pub closed spec fn spec_reason(&self) -> Seq<char> {
        self.reason@
    }

    /// An error with the given reason.
    pub fn new(reason: String) -> (error: Self)
        ensures
            error.spec_reason() == reason@,
    {
        Self { reason }
    }

    /// The reason of the error.
    pub fn reason(&self) -> (reason: &String)
        ensures
            reason@ == self.spec_reason(),
    {
        &self.reason
    }
}

} // verus!
