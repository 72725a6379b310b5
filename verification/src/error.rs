use vstd::prelude::*;

verus! {

/// The I/O error type of the standard library, carried through unchanged.
#[verifier::external_type_specification]
#[verifier::external_body]
pub struct ExIoError(std::io::Error);

/// Errors of the key-value store.
#[derive(Debug)]
pub enum KVError {
    /// An I/O error raised while reading or writing a log file.
    Io(std::io::Error),
    /// A message describing some other failure.
    Default(String),
    /// The log holds bytes that do not frame as a BSON document, starting at
    /// the given byte offset.
    CorruptDocument { offset: u64 },
}

/// A result whose error is a [`KVError`].
pub type KVResult<T> = Result<T, KVError>;

} // verus!
