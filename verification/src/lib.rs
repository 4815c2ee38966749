use vstd::prelude::*;

pub mod api;
pub mod cli;
pub mod constants;
pub mod csv;
pub mod error;
pub mod ffi;
pub mod frequency_response;
pub mod peq;
pub mod server;
pub mod text;
pub mod utils;

pub use constants::FilterType;
pub use error::{AutoEqError, Result};
