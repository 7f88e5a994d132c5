//! The failures that a compression run can report.

use vstd::prelude::*;
use vstd::string::*;

verus! {

#[verifier::external_type_specification]
#[verifier::external_body]
pub struct ExIoError(std::io::Error);

/// Why a compression run failed.
#[derive(Debug)]
pub enum CompressionError {
    /// A block is not a well-formed compressed stream.
    InvalidData,
    /// Reading, compressing or writing failed in the underlying I/O layer.
    IOError(std::io::Error),
}

impl From<std::io::Error> for CompressionError {
    fn from(err: std::io::Error) -> (e: Self) {
        CompressionError::IOError(err)
    }
}

impl vstd::std_specs::convert::FromSpecImpl<std::io::Error> for CompressionError {
    open spec fn obeys_from_spec() -> bool {
        true
    }

    open spec fn from_spec(err: std::io::Error) -> Self {
        CompressionError::IOError(err)
    }
}

/// The text that `describe` gives for an I/O failure whose own text is `detail`.
pub open spec fn io_error_line(detail: Seq<char>) -> Seq<char> {
    "I/O error: "@ + detail
}

/// The `Display` text of a `std::io::Error`, which depends on the platform: nothing is
/// claimed of it.
#[verifier::external_body]
fn io_error_text(err: &std::io::Error) -> (text: String) {
    err.to_string()
}

/// Puts the fixed prefix of an I/O failure in front of the failure's own text.
pub fn io_error_message(detail: &str) -> (line: String)
    ensures
        line@ == io_error_line(detail@),
{
    String::from_str("I/O error: ").concat(detail)
}

impl CompressionError {
    /// The one-line diagnostic for this failure.
    pub fn describe(&self) -> (line: String)
        ensures
            self is InvalidData ==> line@ == "Invalid data"@,
            self is IOError ==> exists|detail: Seq<char>| line@ == io_error_line(detail),
    {
        match self {
            CompressionError::InvalidData => String::from_str("Invalid data"),
            CompressionError::IOError(e) => {
                let detail = io_error_text(e);
                let line = io_error_message(detail.as_str());
                assert(line@ == io_error_line(detail@));
                line
            },
        }
    }
}

} // verus!
