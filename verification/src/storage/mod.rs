//! On-disk representation of columns: encodings, chunk metadata and blobs.
pub mod le_bytes;
pub mod compress;
pub mod chunk;
pub mod encoding;
pub mod format;
pub mod manager;
pub mod roundtrip;
