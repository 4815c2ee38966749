//! The library's error type.
use vstd::prelude::*;

verus! {

/// `std::io::Error`, declared so that `AutoEqError::Io` can carry one; nothing
/// inside it is read.
#[verifier::external_type_specification]
#[verifier::external_body]
pub struct ExIoError(std::io::Error);

/// Errors of the equalisation pipeline.
#[derive(Debug)]
pub enum AutoEqError {
    CsvParse(String),
    InvalidInput(String),
    OptimizationFinished,
    OptimizationFailed(String),
    Dsp(String),
    Io(std::io::Error),
}

/// Result type of the pipeline.
pub type Result<T> = std::result::Result<T, AutoEqError>;

/// A CSV parse error carrying `msg`.
pub fn csv_error(msg: &str) -> (e: AutoEqError)
    ensures
        e matches AutoEqError::CsvParse(m) && m@ == msg@,
{
    AutoEqError::CsvParse(String::from_str(msg))
}

/// An invalid-input error carrying `msg`.
pub fn invalid_input(msg: &str) -> (e: AutoEqError)
    ensures
        e matches AutoEqError::InvalidInput(m) && m@ == msg@,
{
    AutoEqError::InvalidInput(String::from_str(msg))
}

} // verus!
