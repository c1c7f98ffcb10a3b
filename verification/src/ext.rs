//! Bindings to the outside checksum crates and to std's UTF-8 decoder.
//!
//! Everything the rest of the crate knows about these calls is stated in the
//! contracts here; the bodies do nothing but make the calls.

use vstd::prelude::*;

verus! {

/// The CRC-32/ISO-HDLC checksum of a byte sequence: the 32-bit variant used
/// by zlib and gzip (polynomial 0x04C11DB7, reflected input and output,
/// initial value and final xor 0xFFFFFFFF). The value of the checksum is left
/// unspecified here; both checksum crates below document that they compute
/// exactly this function of the input bytes, so their results are tied to
/// this one name.
pub uninterp spec fn crc32_of(bytes: Seq<u8>) -> u32;

/// Relies on crc32fast::hash, which computes the CRC32 (IEEE) checksum,
/// another name for CRC-32/ISO-HDLC.
#[verifier::external_body]
pub(crate) fn crc32fast_checksum(bytes: &[u8]) -> (r: u32)
    ensures
        r == crc32_of(bytes@),
{
    crc32fast::hash(bytes)
}

/// Relies on crc::Crc::checksum, instantiated with the CRC_32_ISO_HDLC
/// algorithm from the crc catalog.
#[verifier::external_body]
pub(crate) fn crc_iso_hdlc_checksum(bytes: &[u8]) -> (r: u32)
    ensures
        r == crc32_of(bytes@),
{
    let crc = crc::Crc::<u32>::new(&crc::CRC_32_ISO_HDLC);
    crc.checksum(bytes)
}

/// Relies on String::from_utf8: it succeeds exactly on valid UTF-8 input and
/// decodes the bytes to the characters they encode.
#[verifier::external_body]
pub(crate) fn utf8_decode(bytes: &Vec<u8>) -> (r: Option<String>)
    ensures
        r is Some <==> vstd::utf8::valid_utf8(bytes@),
        r matches Some(s) ==> s@ == vstd::utf8::decode_utf8(bytes@),
{
    match String::from_utf8(bytes.clone()) {
        Ok(s) => Some(s),
        Err(_) => None,
    }
}

} // verus!
