use vstd::prelude::*;

verus! {

/// Every failure the archive decoder can report.
#[derive(Debug, Clone, PartialEq, Eq)]
pub enum Error {
    /// A read ran past the end of the available bytes.
    Io,
    /// No dialect matched, or the bytes contradict the dialect's layout.
    Parse,
    /// The archive is marked encrypted but no key was supplied.
    EncryptedWithoutKey,
    /// The supplied key hash is not valid base64, or is not a 256-bit key.
    MalformedKey,
    /// A byte that must be 0 or 1 held this value instead.
    InvalidBoolean(u8),
    /// A stored string is not valid UTF-8 / UTF-16.
    StringDecode,
    /// The entry names a compression codec this build does not provide.
    UnsupportedCompression,
    /// Extraction was asked for a path absent from the catalog.
    MissingEntry(String),
}

} // verus!
