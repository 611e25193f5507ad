//! Pieces shared by every day's solution: the input error type, the part
//! selector, line splitting and the top-level solution error.

pub mod error;
pub mod input;
pub mod iter;
pub mod part;
