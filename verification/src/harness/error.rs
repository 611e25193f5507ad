use vstd::prelude::*;

verus! {

use crate::harness::input::InputError;

/// Top-level errors encountered when computing a solution.
#[derive(Debug, PartialEq, Eq)]
pub enum Error {
    FileInput(InputError),
    SolutionError,
}

impl Error {
    /// Wrap an input error, as every solution does when parsing fails.
    pub fn from_input(e: InputError) -> (r: Error)
        ensures
            r == Error::FileInput(e),
    {
        Error::FileInput(e)
    }
}

} // verus!
