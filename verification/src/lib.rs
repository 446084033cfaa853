//! Decoder for a versioned "pak" archive container: version-dialect probing,
//! footer and index parsing, optional AES index decryption, and per-entry
//! extraction of stored file bytes.
pub mod crypt;
pub mod entry;
pub mod err;
pub mod footer;
pub mod norm;
pub mod pak;
pub mod rd;
pub mod strs;
pub mod version;

pub use entry::Block;
pub use entry::Codec;
pub use entry::Entry;
pub use err::Error;
pub use footer::Footer;
pub use norm::normalize_name;
pub use pak::Pak;
pub use rd::Rd;
pub use rd::ReadExt;
pub use version::Version;
