use vstd::prelude::*;

pub mod grammar;
pub mod grep;
pub mod logline;
pub mod output;

verus! {

/// Errors reported by the library: a line that does not match the log
/// grammar (`Parse`), a filter pattern that does not compile (`Regex`),
/// and a configured field name outside the fixed set (`UnknownField`).
#[derive(Debug)]
pub enum AppError {
    Parse(String),
    Regex(String),
    UnknownField(String),
}

} // verus!
