use vstd::prelude::*;

verus! {

/// The library's one error.
#[derive(Clone, Copy, Debug, PartialEq, Eq, Structural)]
pub struct Error {}

impl Error {
    /// The text that describes the error.
    pub fn message(&self) -> (r: String)
        ensures
            r@ == "syracuse error"@,
    {
        "syracuse error".to_owned()
    }

    /// The short description: empty.
    pub fn description(&self) -> (r: &'static str)
        ensures
            r@ == ""@,
    {
        ""
    }
}

} // verus!
