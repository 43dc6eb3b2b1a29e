//! The error reported to a solver's HTTP interface.
use vstd::prelude::*;

verus! {

/// An error carrying its message.
#[derive(Debug)]
pub struct Error(pub String);

impl Error {
    pub fn new(message: String) -> (r: Error)
        ensures
            r.0 == message,
    {
        Error(message)
    }
}

} // verus!
