//! The outside codecs that the `.sqrb` container relies on: zstd frames
//! (the `zstd` crate) and CRC-32 checksums (the `crc32fast` crate).
use vstd::prelude::*;

verus! {

/// The frame that `zstd::stream::encode_all` produces for `data` at `level`.
pub uninterp spec fn zstd_frame(data: Seq<u8>, level: i32) -> Seq<u8>;

/// What `zstd::stream::decode_all` gives back for `frame`; `None` where it
/// reports an error.
pub uninterp spec fn zstd_content(frame: Seq<u8>) -> Option<Seq<u8>>;

/// One bit step of the reflected CRC-32 with polynomial `0xEDB88320`.
pub open spec fn crc32_bit(c: u32) -> u32 {
    if c & 1u32 != 0 {
        (c >> 1u32) ^ 0xEDB8_8320u32
    } else {
        c >> 1u32
    }
}

/// The CRC-32 register after one more byte: eight bit steps.
pub open spec fn crc32_byte(c: u32, b: u8) -> u32 {
    let c1 = crc32_bit(c ^ (b as u32));
    let c2 = crc32_bit(c1);
    let c3 = crc32_bit(c2);
    let c4 = crc32_bit(c3);
    let c5 = crc32_bit(c4);
    let c6 = crc32_bit(c5);
    let c7 = crc32_bit(c6);
    crc32_bit(c7)
}

/// The CRC-32 register after the bytes of `data`, from `init`.
pub open spec fn crc32_register(init: u32, data: Seq<u8>) -> u32
    decreases data.len(),
{
    if data.len() == 0 {
        init
    } else {
        crc32_byte(crc32_register(init, data.drop_last()), data.last())
    }
}

/// The CRC-32 (IEEE 802.3) checksum of `data`: reflected, polynomial
/// `0xEDB88320`, initial register and final XOR `0xFFFFFFFF`.
pub open spec fn crc32_of(data: Seq<u8>) -> u32 {
    !crc32_register(0xFFFF_FFFFu32, data)
}

/// Compresses `data` into one zstd frame with `zstd::stream::encode_all`.
/// Claimed: on success the frame is a function of `data` and `level` alone,
/// and `zstd::stream::decode_all` gives `data` back from it (zstd is
/// lossless). Not claimed: when it fails. With an in-memory source and sink
/// zstd fails only when it cannot get working memory, which depends on the
/// machine. The error text is the `std::io::Error` that zstd reports.
#[verifier::external_body]
pub(crate) fn zstd_encode(data: &[u8], level: i32) -> (res: Result<Vec<u8>, String>)
    ensures
        res matches Ok(frame) ==> frame@ == zstd_frame(data@, level),
        res matches Ok(frame) ==> zstd_content(frame@) == Some(data@),
{
    match zstd::stream::encode_all(std::io::Cursor::new(data), level) {
        Ok(frame) => Ok(frame),
        Err(source) => Err(format!("{}", source)),
    }
}

/// Decompresses the zstd frames in `frame` with `zstd::stream::decode_all`.
/// Claimed: it succeeds exactly where `zstd_content` is defined and then
/// returns that content. The error text is the `std::io::Error` that zstd
/// reports.
#[verifier::external_body]
pub(crate) fn zstd_decode(frame: &[u8]) -> (res: Result<Vec<u8>, String>)
    ensures
        res is Ok <==> zstd_content(frame@) is Some,
        res matches Ok(data) ==> zstd_content(frame@) == Some(data@),
{
    match zstd::stream::decode_all(std::io::Cursor::new(frame)) {
        Ok(data) => Ok(data),
        Err(source) => Err(format!("{}", source)),
    }
}

/// The CRC-32 checksum of `data`, by `crc32fast::hash`.
/// Claimed: it is the IEEE CRC-32 that `crc32_of` defines.
#[verifier::external_body]
pub(crate) fn crc32(data: &[u8]) -> (res: u32)
    ensures
        res == crc32_of(data@),
{
    crc32fast::hash(data)
}

} // verus!
