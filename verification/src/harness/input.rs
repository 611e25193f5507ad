use vstd::prelude::*;

verus! {

/// Errors raised while reading a solution's input.
///
/// `FileIo` stands for a failure to read the input at all; it is produced
/// by the unverified shell around this crate, which owns the file
/// handling. `InvalidInput` means a line or token did not match the shape
/// the day's parser expects.
#[derive(Debug, PartialEq, Eq)]
pub enum InputError {
    FileIo,
    InvalidInput { msg: String },
}

impl InputError {
    /// An `InvalidInput` error carrying the given static description.
    pub fn invalid(msg: &str) -> (e: InputError)
        ensures
            e is InvalidInput,
    {
        InputError::InvalidInput { msg: msg.to_owned() }
    }
}

} // verus!
