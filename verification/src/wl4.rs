//! The game-specific run-length variants.  All three share the Literal /
//! Repeat run model of the firmware scheme; they differ in element width and
//! in flag encoding.  The generic variant codes byte elements with the
//! inverted flag convention (the high bit marks a literal run); the 8-bit
//! and 16-bit variants code 1-byte and 2-byte elements with the normal flag
//! convention.  Each carries its own format tag.

use vstd::prelude::*;

verus! {

use crate::CodecError;
use crate::header::spec_header;
use crate::header::spec_header_size;
use crate::rle::spec_rle_payload;
use crate::rle::spec_rle_stream;
use crate::rle::rle_decode_stream;
use crate::rle::rle_encode_stream;

/// Format tag of the generic game run-length stream.
pub const WL4_RLE_TAG: u8 = 0x40;

/// Format tag of the 8-bit-element game run-length stream.
pub const WL4_RLE8_TAG: u8 = 0x41;

/// Format tag of the 16-bit-element game run-length stream.
pub const WL4_RLE16_TAG: u8 = 0x42;

/// Compresses `data` with the generic game run-length variant.  Decoding
/// the result restores `data` exactly.
pub fn compress_wl4_rle(data: &Vec<u8>) -> (r: Result<Vec<u8>, CodecError>)
    requires
        data@.len() <= 0xFF_FFFF,
    ensures
        r is Ok,
        r.unwrap()@.len() >= 4 && r.unwrap()@[0] == WL4_RLE_TAG,
        spec_header_size(r.unwrap()@) == data@.len(),
        spec_rle_stream(r.unwrap()@, WL4_RLE_TAG, 1, true) == Ok::<Seq<u8>, CodecError>(data@),
        r.unwrap()@ == spec_header(WL4_RLE_TAG, data@.len() as int) + spec_rle_payload(
            data@,
            0,
            1,
            true,
        ),
{
    rle_encode_stream(data, WL4_RLE_TAG, 1, true)
}

/// Decodes a generic game run-length stream.
pub fn decompress_wl4_rle(wire: &Vec<u8>) -> (r: Result<Vec<u8>, CodecError>)
    ensures
        crate::res_view(r) == spec_rle_stream(wire@, WL4_RLE_TAG, 1, true),
{
    rle_decode_stream(wire, WL4_RLE_TAG, 1, true)
}

/// Compresses `data` with the 8-bit-element game run-length variant.
/// Decoding the result restores `data` exactly.
pub fn compress_wl4_rle8(data: &Vec<u8>) -> (r: Result<Vec<u8>, CodecError>)
    requires
        data@.len() <= 0xFF_FFFF,
    ensures
        r is Ok,
        r.unwrap()@.len() >= 4 && r.unwrap()@[0] == WL4_RLE8_TAG,
        spec_header_size(r.unwrap()@) == data@.len(),
        spec_rle_stream(r.unwrap()@, WL4_RLE8_TAG, 1, false) == Ok::<Seq<u8>, CodecError>(data@),
        r.unwrap()@ == spec_header(WL4_RLE8_TAG, data@.len() as int) + spec_rle_payload(
            data@,
            0,
            1,
            false,
        ),
{
    rle_encode_stream(data, WL4_RLE8_TAG, 1, false)
}

/// Decodes an 8-bit-element game run-length stream.
pub fn decompress_wl4_rle8(wire: &Vec<u8>) -> (r: Result<Vec<u8>, CodecError>)
    ensures
        crate::res_view(r) == spec_rle_stream(wire@, WL4_RLE8_TAG, 1, false),
{
    rle_decode_stream(wire, WL4_RLE8_TAG, 1, false)
}

/// Compresses `data` with the 16-bit-element game run-length variant.  An
/// input that is not a whole number of halfwords is rejected; decoding a
/// successful result restores `data` exactly.
pub fn compress_wl4_rle16(data: &Vec<u8>) -> (r: Result<Vec<u8>, CodecError>)
    requires
        data@.len() <= 0xFF_FFFF,
    ensures
        data@.len() % 2 != 0 ==> crate::res_view(r) == Err::<Seq<u8>, CodecError>(
            CodecError::InvalidLength,
        ),
        data@.len() % 2 == 0 ==> r is Ok,
        r is Ok ==> (r.unwrap()@.len() >= 4 && r.unwrap()@[0] == WL4_RLE16_TAG && spec_header_size(
            r.unwrap()@,
        ) == data@.len() && spec_rle_stream(r.unwrap()@, WL4_RLE16_TAG, 2, false) == Ok::<
            Seq<u8>,
            CodecError,
        >(data@)),
        r is Ok ==> r.unwrap()@ == spec_header(WL4_RLE16_TAG, data@.len() as int)
            + spec_rle_payload(data@, 0, 2, false),
{
    rle_encode_stream(data, WL4_RLE16_TAG, 2, false)
}

/// Decodes a 16-bit-element game run-length stream.
pub fn decompress_wl4_rle16(wire: &Vec<u8>) -> (r: Result<Vec<u8>, CodecError>)
    ensures
        crate::res_view(r) == spec_rle_stream(wire@, WL4_RLE16_TAG, 2, false),
{
    rle_decode_stream(wire, WL4_RLE16_TAG, 2, false)
}

} // verus!
