//! Zstandard compression of whole byte buffers, through the `zstd` crate.
use vstd::prelude::*;

verus! {

#[verifier::external_type_specification]
#[verifier::external_body]
pub struct ExIoError(std::io::Error);

/// The compression level the library uses: zstd's default.
pub const COMPRESSION_LEVEL: i32 = 3;

/// The zstd frame that `zstd::encode_all` makes of `data` at compression `level`.
pub uninterp spec fn zstd_frame(data: Seq<u8>, level: i32) -> Seq<u8>;

/// What `zstd::decode_all` gives back from `compressed`: the decompressed bytes, or `None`
/// where `compressed` is not a sequence of valid zstd frames.
pub uninterp spec fn zstd_decoded(compressed: Seq<u8>) -> Option<Seq<u8>>;

/// Why decompression failed.
#[derive(Debug, PartialEq, Eq)]
pub enum ZstdError {
    /// The bytes are not valid zstd data.
    InvalidData,
}

/// The four bytes that begin every zstd frame.
pub open spec fn zstd_magic_number() -> Seq<u8> {
    seq![0x28u8, 0xb5u8, 0x2fu8, 0xfdu8]
}

/// `zstd::encode_all` on an in-memory buffer at a compression level zstd supports: it
/// succeeds (reading a slice and writing a `Vec` cannot fail; running out of memory, which
/// makes the context constructor panic, is no outcome here, as for any Rust allocation) and
/// gives the frame of `data` at `level`, which starts with the zstd magic number and decodes
/// back to `data`.
#[verifier::external_body]
fn zstd_encode_all(data: &[u8], level: i32) -> (r: Result<Vec<u8>, std::io::Error>)
    requires
        1 <= level <= 22,
    ensures
        r is Ok,
        r matches Ok(frame) ==> frame@ == zstd_frame(data@, level) && zstd_decoded(frame@) == Some(
            data@,
        ) && frame@.len() >= 4 && frame@.take(4) == zstd_magic_number(),
{
    zstd::encode_all(data, level)
}

/// `zstd::decode_all` on an in-memory buffer: succeeds exactly on valid zstd data and then
/// gives the decompressed bytes.
#[verifier::external_body]
fn zstd_decode_all(compressed: &[u8]) -> (r: Result<Vec<u8>, std::io::Error>)
    ensures
        r is Ok <==> zstd_decoded(compressed@) is Some,
        r matches Ok(data) ==> zstd_decoded(compressed@) == Some(data@),
{
    zstd::decode_all(compressed)
}

/// Compress data with zstd at default compression level.
///
/// The result is the zstd frame of `data`: it starts with the zstd magic number and decodes
/// back to `data`.
pub fn compress_zstd(data: &[u8]) -> (frame: Vec<u8>)
    ensures
        frame@ == zstd_frame(data@, COMPRESSION_LEVEL),
        zstd_decoded(frame@) == Some(data@),
        frame@.len() >= 4,
        frame@.take(4) == zstd_magic_number(),
{
    match zstd_encode_all(data, COMPRESSION_LEVEL) {
        Ok(frame) => frame,
        Err(_) => {
            proof {
                assert(false);
            }
            Vec::new()
        },
    }
}

/// Decompress zstd data held in memory.
pub fn decompress_zstd(compressed: &[u8]) -> (r: Result<Vec<u8>, ZstdError>)
    ensures
        r is Ok <==> zstd_decoded(compressed@) is Some,
        r matches Ok(data) ==> zstd_decoded(compressed@) == Some(data@),
        r matches Err(e) ==> e == ZstdError::InvalidData,
{
    match zstd_decode_all(compressed) {
        Ok(data) => Ok(data),
        Err(_) => Err(ZstdError::InvalidData),
    }
}

} // verus!
