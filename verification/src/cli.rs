use vstd::prelude::*;

verus! {

/// The command-line request: which day to run, and which part of it.
///
/// The unverified shell around this crate parses the actual command line
/// (and enforces the 1..=25 and 1..=2 ranges there) before handing the
/// values over in this bare form.
#[derive(Debug, PartialEq, Eq, Structural, Clone, Copy)]
pub struct Cli {
    /// Day of the advent.
    pub day: u8,
    /// Part of the daily exercise.
    pub part: u8,
}

} // verus!
