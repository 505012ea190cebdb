//! The error type shared by archive operations.

use vstd::prelude::*;

verus! {

/// Why an archive operation was refused.
#[derive(Clone, Copy, Debug, PartialEq, Eq, Structural)]
pub enum BindleError {
    /// The image is too short to hold a header and a footer.
    FileTooSmall,
    /// The image does not begin with the magic header bytes.
    InvalidHeader,
    /// The footer is missing its marker or points outside the image.
    InvalidFooter,
    /// No entry with the requested name exists.
    EntryNotFound,
    /// An entry's payload range lies outside the data region.
    OutOfBounds,
    /// The checksum of the bytes read does not match the stored checksum.
    ChecksumMismatch,
    /// Compressing a payload failed.
    CompressionFailed,
    /// A compressed payload could not be decoded.
    DecompressionFailed,
    /// Seeking is not supported on compressed streams.
    SeekUnsupported,
    /// A seek would move before the start of the stream or past the
    /// largest representable position.
    SeekInvalid,
    /// An entry name is longer than the on-disk format can record.
    NameTooLong,
    /// The index holds more entries than the footer can count.
    TooManyEntries,
}

} // verus!
