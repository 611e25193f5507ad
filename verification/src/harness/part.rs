use vstd::prelude::*;

verus! {

/// Daily exercise component.
#[derive(Debug, PartialEq, Eq, Structural, Clone, Copy)]
pub enum Part {
    One,
    Two,
}

impl Part {
    /// The number of the part, as it appears on the command line.
    pub fn num(&self) -> (n: u8)
        ensures
            n == (if self is One { 1u8 } else { 2u8 }),
    {
        match self {
            Part::One => 1,
            Part::Two => 2,
        }
    }

    /// The part a command-line number selects: 1 and 2 are the only
    /// valid choices, and anything else is reported back unchanged.
    pub fn from_num(value: u8) -> (r: Result<Part, PartParseError>)
        ensures
            value == 1 ==> r == Ok::<Part, PartParseError>(Part::One),
            value == 2 ==> r == Ok::<Part, PartParseError>(Part::Two),
            value != 1 && value != 2 ==> r == Err::<Part, PartParseError>(PartParseError(value)),
    {
        match value {
            1 => Ok(Part::One),
            2 => Ok(Part::Two),
            _ => Err(PartParseError(value)),
        }
    }
}

/// The rejected part number, kept so the caller can report it.
#[derive(Debug, PartialEq, Eq, Structural, Clone, Copy)]
pub struct PartParseError(pub u8);

} // verus!
