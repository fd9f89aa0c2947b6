use vstd::prelude::*;

verus! {

#[verifier::external_type_specification]
#[verifier::external_body]
pub struct ExIoError(std::io::Error);

/// Errors of the log.
#[derive(Debug)]
pub enum Error {
    /// A failure of the underlying file system.
    IOError(std::io::Error),
    /// An option or a path that cannot be used.
    InvalidArgs(String),
    /// A stored physical record whose checksum disagrees with its contents.
    ChecksumMismatch,
    /// Fragments that arrive out of order (a Middle or Last with no First, a
    /// nested First, or an unknown kind).
    FramingError,
    /// A sequence number outside the retained range.
    SequenceNotFound,
    /// Fewer bytes than a header or a declared length requires.
    Truncated,
}

} // verus!
