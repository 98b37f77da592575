use vstd::prelude::*;

verus! {

/// The I/O error type of the standard library, carried through unchanged.
#[verifier::external_type_specification]
#[verifier::external_body]
pub struct ExIoError(std::io::Error);

/// Everything that can go wrong while reading or writing an archive.
#[derive(Debug)]
pub enum FvpError {
    /// The archive ended before a header field, a table row or a name terminator.
    Io(std::io::Error),
    /// A stored name is not valid Shift-JIS.
    DecodingError,
    /// A file name cannot be represented in Shift-JIS.
    EncodingError,
    /// The archive is malformed in some other way.
    FormatError(String),
    /// The number of files written does not match the number announced.
    CountMismatch { expected: usize, actual: usize },
}

impl From<std::io::Error> for FvpError {
    /// An I/O error, as the `Io` variant.
    fn from(e: std::io::Error) -> (r: Self) {
        FvpError::Io(e)
    }
}

impl vstd::std_specs::convert::FromSpecImpl<std::io::Error> for FvpError {
    open spec fn obeys_from_spec() -> bool {
        true
    }

    open spec fn from_spec(e: std::io::Error) -> Self {
        FvpError::Io(e)
    }
}

/// The result of the library's fallible operations.
pub type Result<T> = std::result::Result<T, FvpError>;

/// The error that reading past the end of the archive produces: an
/// `UnexpectedEof` I/O error with the message that `read_exact` uses.
/// (`std::io::Error::new`; nothing is stated of the value.)
#[verifier::external_body]
pub(crate) fn unexpected_eof() -> std::io::Error {
    std::io::Error::new(std::io::ErrorKind::UnexpectedEof, "failed to fill whole buffer")
}

} // verus!
