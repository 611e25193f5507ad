//! Solutions to a series of daily programming puzzles, verified with Verus.
//!
//! Each day lives in its own module under [`day`], with a type per puzzle
//! part holding a `solve` function, and an input type holding a `read`
//! function that parses the raw puzzle input. The [`harness`] module holds
//! the pieces shared by every day: line splitting, the part selector and
//! the error types. All file handling stays outside this crate; every
//! function here works on in-memory bytes and values.

pub mod cli;
pub mod day;
pub mod harness;
pub mod parse;
