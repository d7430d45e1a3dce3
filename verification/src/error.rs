//! The ways a run can fail, and how each is reported.

use vstd::prelude::*;

verus! {

/// `std::io::Error`, declared so that I/O errors can be carried; nothing is
/// read from them here.
#[verifier::external_type_specification]
#[verifier::external_body]
pub struct ExIoError(std::io::Error);

/// `serde_json::Error`, declared so that JSON errors can be carried; nothing
/// is read from them here.
#[verifier::external_type_specification]
#[verifier::external_body]
pub struct ExJsonError(serde_json::Error);

#[derive(Debug)]
/// Why a run failed.
pub enum MenderError {
    Validation(String),
    Io(std::io::Error),
    Json(serde_json::Error),
}

impl MenderError {
    /// The process exit code: 2 for I/O errors, 1 otherwise.
    pub fn exit_code(&self) -> (r: i32)
        ensures
            r == (if self is Io {
                2i32
            } else {
                1i32
            }),
    {
        match self {
            MenderError::Validation(_) => 1,
            MenderError::Io(_) => 2,
            MenderError::Json(_) => 1,
        }
    }

    /// The machine-readable error code.
    pub fn error_code(&self) -> (r: &'static str)
        ensures
            r@ == (match self {
                MenderError::Validation(_) => "validation_error"@,
                MenderError::Io(_) => "io_error"@,
                MenderError::Json(_) => "json_error"@,
            }),
    {
        match self {
            MenderError::Validation(_) => "validation_error",
            MenderError::Io(_) => "io_error",
            MenderError::Json(_) => "json_error",
        }
    }
}

} // verus!
