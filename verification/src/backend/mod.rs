//! Where blobs are stored: the interface every store offers, and the store
//! that keeps blobs in memory.
pub mod memory;

use vstd::prelude::*;

verus! {

/// A store of blobs under paths.
pub trait BlobBackend {
    /// `len` bytes of the blob at `path`, from byte `offset` on.
    fn read(&self, path: &str, offset: u64, len: u64) -> Result<Vec<u8>, String>;

    /// Stores `data` as the blob at `path`, in place of any blob there.
    fn write(&mut self, path: &str, data: &[u8]) -> Result<(), String>;

    /// Whether a blob is stored at `path`.
    fn blob_exists(&self, path: &str) -> bool;

    /// The paths of the stored blobs that start with `prefix`, in order.
    fn list(&self, prefix: &str) -> Result<Vec<String>, String>;
}

} // verus!
