//! General-purpose compression of byte buffers with zstd.
use vstd::prelude::*;

verus! {

#[verifier::external_type_specification]
#[verifier::external_body]
pub struct ExIoError(std::io::Error);

/// The frame that `zstd::encode_all` makes of `data` at `level`.
pub uninterp spec fn zstd_encode_all(data: Seq<u8>, level: i32) -> Seq<u8>;

/// What `zstd::decode_all` gives for `frame`: the data, or `None` where it
/// reports an error.
pub uninterp spec fn zstd_decode_all(frame: Seq<u8>) -> Option<Seq<u8>>;

/// Calls `zstd::encode_all` on an in-memory slice, at a level from 1 to 22
/// (those its documentation accepts). The frame is the one named by
/// `zstd_encode_all`, and, as the crate's documentation shows,
/// `zstd::decode_all` gives `data` back from it. It succeeds: its source
/// fails only on a refused level, on an I/O error of the reader or the
/// writer (a slice and a `Vec` give none), or where zstd's C library cannot
/// allocate, and allocation is taken to succeed here as for every
/// allocation of the library (creating the context panics otherwise).
#[verifier::external_body]
pub(crate) fn zstd_compress(data: &[u8], level: i32) -> (r: Result<Vec<u8>, std::io::Error>)
    requires
        1 <= level <= 22,
    ensures
        r is Ok,
        r matches Ok(frame) ==> frame@ == zstd_encode_all(data@, level),
        r matches Ok(frame) ==> zstd_decode_all(frame@) == Some(data@),
{
    zstd::encode_all(data, level)
}

/// Calls `zstd::decode_all`: succeeds exactly where `zstd_decode_all` names
/// some data, and then gives that data.
#[verifier::external_body]
pub(crate) fn zstd_decompress(frame: &[u8]) -> (r: Result<Vec<u8>, std::io::Error>)
    ensures
        match r {
            Ok(data) => zstd_decode_all(frame@) == Some(data@),
            Err(_) => zstd_decode_all(frame@) is None,
        },
{
    zstd::decode_all(frame)
}

} // verus!
