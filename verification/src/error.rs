//! Error type shared by every fallible operation of the library.

use vstd::prelude::*;

verus! {

/// The ways in which an archive operation can fail.
#[derive(Debug)]
pub enum Error {
    /// An underlying file or stream operation failed, or its input ended early.
    Io(String),
    /// Malformed header or index, a call in the wrong writer state, a size mismatch
    /// or an empty builder.
    InvalidFormat(String),
    /// No entry of the open archive has the requested path.
    FileNotFound(String),
    /// The bytes of an entry name are not valid UTF-8.
    InvalidUtf8,
    /// An encrypted entry was met while no key is available.
    Crypto(String),
    /// The index lies about its size, or payload bytes lie outside the archive.
    Corrupted(String),
    /// An event handler asked for the operation to stop.
    Cancelled,
}

/// An `Io` error with the given detail.
pub fn io_error(detail: &str) -> (e: Error)
    ensures
        e matches Error::Io(m) && m@ == detail@,
{
    Error::Io(detail.to_owned())
}

/// An `InvalidFormat` error with the given detail.
pub fn invalid_format(detail: &str) -> (e: Error)
    ensures
        e matches Error::InvalidFormat(m) && m@ == detail@,
{
    Error::InvalidFormat(detail.to_owned())
}

/// A `FileNotFound` error naming the path that was looked up.
pub fn file_not_found(name: &str) -> (e: Error)
    ensures
        e matches Error::FileNotFound(m) && m@ == name@,
{
    Error::FileNotFound(name.to_owned())
}

/// A `Crypto` error with the given detail.
pub fn crypto_error(detail: &str) -> (e: Error)
    ensures
        e matches Error::Crypto(m) && m@ == detail@,
{
    Error::Crypto(detail.to_owned())
}

/// A `Corrupted` error with the given detail.
pub fn corrupted(detail: &str) -> (e: Error)
    ensures
        e matches Error::Corrupted(m) && m@ == detail@,
{
    Error::Corrupted(detail.to_owned())
}

} // verus!
