//! Errors.
pub mod parsing_error;
