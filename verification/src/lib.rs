//! Codec suite for the fixed binary compression formats used by a handheld
//! console's firmware and by one game's asset pipeline: a sliding-window
//! match compressor, a canonical-tree entropy coder, a run-length coder, two
//! delta filters, and three game-specific run-length variants.  Every stream
//! carries a four-byte header (a format tag and the declared decompressed
//! size), and every decoder checks the stream against that declaration.
//! Decoders read only as much of the buffer as the stream needs and ignore
//! what follows, so a stream can be decoded straight out of a larger image,
//! as the scanning tools do.

use vstd::prelude::*;

pub mod bits;
pub mod diff;
pub mod header;
pub mod huffman;
pub mod lz77;
pub mod rle;
pub mod search;
pub mod wl4;

verus! {

/// Number of bytes in the shared stream header: one format tag byte followed
/// by the declared decompressed size as a 24-bit little-endian integer.
pub const HEADER_LEN: usize = 4;

/// The largest decompressed size the 24-bit header field can declare.
pub const MAX_DECOMPRESSED_SIZE: usize = 0xFF_FFFF;

/// Everything that can go wrong while encoding or decoding a stream.
#[derive(Clone, Copy, Debug, PartialEq, Eq, Structural)]
pub enum CodecError {
    /// The buffer or bitstream ran out before the declared length was reached.
    UnexpectedEof,
    /// The format tag byte is not one this suite recognises.
    InvalidHeader,
    /// A window match reaches further back than the bytes produced so far.
    InvalidBackReference,
    /// A run's length is inconsistent with the declared total.
    InvalidRun,
    /// A tree walk references outside the serialized table.
    TreeCorruption,
    /// An input length is not aligned to the required element width.
    InvalidLength,
    /// The decoded byte count cannot match the header's declared size.
    SizeMismatch,
}

/// The mathematical value of an encode or decode result: the byte sequence
/// it produced, or the error it reports.
pub open spec fn res_view(r: Result<Vec<u8>, CodecError>) -> Result<Seq<u8>, CodecError> {
    match r {
        Ok(v) => Ok(v@),
        Err(e) => Err(e),
    }
}

/// What decoding any stream of this suite yields: the format is read from
/// the header tag, never supplied by the caller, and an unrecognized tag is
/// rejected.
pub open spec fn spec_decode(wire: Seq<u8>) -> Result<Seq<u8>, CodecError> {
    if wire.len() < 4 {
        Err(CodecError::UnexpectedEof)
    } else if wire[0] == lz77::LZ77_TAG {
        lz77::spec_lz_stream(wire)
    } else if wire[0] == huffman::HUFF4_TAG || wire[0] == huffman::HUFF8_TAG {
        huffman::spec_huff_stream(wire)
    } else if wire[0] == rle::RLE_TAG {
        rle::spec_rle_stream(wire, rle::RLE_TAG, 1, false)
    } else if wire[0] == diff::DIFF8_TAG {
        diff::spec_unfilter_diff8(wire)
    } else if wire[0] == diff::DIFF16_TAG {
        diff::spec_unfilter_diff16(wire)
    } else if wire[0] == wl4::WL4_RLE_TAG {
        rle::spec_rle_stream(wire, wl4::WL4_RLE_TAG, 1, true)
    } else if wire[0] == wl4::WL4_RLE8_TAG {
        rle::spec_rle_stream(wire, wl4::WL4_RLE8_TAG, 1, false)
    } else if wire[0] == wl4::WL4_RLE16_TAG {
        rle::spec_rle_stream(wire, wl4::WL4_RLE16_TAG, 2, false)
    } else {
        Err(CodecError::InvalidHeader)
    }
}

/// Decodes a stream of any of the suite's formats, dispatching on the
/// header's format tag.
pub fn decode(wire: &Vec<u8>) -> (r: Result<Vec<u8>, CodecError>)
    ensures
        res_view(r) == spec_decode(wire@),
{
    if wire.len() < 4 {
        return Err(CodecError::UnexpectedEof);
    }
    let tag = wire[0];
    if tag == lz77::LZ77_TAG {
        lz77::decompress_lz77(wire)
    } else if tag == huffman::HUFF4_TAG || tag == huffman::HUFF8_TAG {
        huffman::decompress_huffman(wire)
    } else if tag == rle::RLE_TAG {
        rle::decompress_rle(wire)
    } else if tag == diff::DIFF8_TAG {
        diff::unfilter_diff8(wire)
    } else if tag == diff::DIFF16_TAG {
        diff::unfilter_diff16(wire)
    } else if tag == wl4::WL4_RLE_TAG {
        wl4::decompress_wl4_rle(wire)
    } else if tag == wl4::WL4_RLE8_TAG {
        wl4::decompress_wl4_rle8(wire)
    } else if tag == wl4::WL4_RLE16_TAG {
        wl4::decompress_wl4_rle16(wire)
    } else {
        Err(CodecError::InvalidHeader)
    }
}

/// Encodes `data` under the selected format.  Encoding succeeds on every
/// input the header can describe — except that the halfword formats reject
/// an input that is not a whole number of halfwords — and decoding the
/// result restores `data` exactly.
pub fn encode(data: &Vec<u8>, format: FormatSelector) -> (r: Result<Vec<u8>, CodecError>)
    requires
        data@.len() <= 0xFF_FFFF,
    ensures
        r is Ok ==> r.unwrap()@.len() >= 4 && header::spec_header_size(r.unwrap()@)
            == data@.len(),
        format matches FormatSelector::Lz77 { vram_safe } ==> (r is Ok && spec_decode(r.unwrap()@)
            == Ok::<Seq<u8>, CodecError>(data@) && (vram_safe ==> lz77::spec_lz_decode(
            r.unwrap()@.skip(4),
            0,
            0,
            0,
            Seq::empty(),
            data@.len() as int,
            3,
        ) == Ok::<Seq<u8>, CodecError>(data@))),
        format matches FormatSelector::Huffman { four_bit_symbols } ==> (r is Ok && r.unwrap()@[0]
            == (if four_bit_symbols {
            huffman::HUFF4_TAG
        } else {
            huffman::HUFF8_TAG
        }) && spec_decode(r.unwrap()@) == Ok::<Seq<u8>, CodecError>(data@)),
        format == FormatSelector::Rle ==> (r is Ok && spec_decode(r.unwrap()@) == Ok::<
            Seq<u8>,
            CodecError,
        >(data@)),
        format == FormatSelector::Diff8 ==> (r is Ok && spec_decode(r.unwrap()@) == Ok::<
            Seq<u8>,
            CodecError,
        >(data@)),
        format == FormatSelector::Diff16 ==> (if data@.len() % 2 != 0 {
            r == Err::<Vec<u8>, CodecError>(CodecError::InvalidLength)
        } else {
            r is Ok && spec_decode(r.unwrap()@) == Ok::<Seq<u8>, CodecError>(data@)
        }),
        format == FormatSelector::Wl4Rle ==> (r is Ok && spec_decode(r.unwrap()@) == Ok::<
            Seq<u8>,
            CodecError,
        >(data@)),
        format == FormatSelector::Wl4Rle8 ==> (r is Ok && spec_decode(r.unwrap()@) == Ok::<
            Seq<u8>,
            CodecError,
        >(data@)),
        format == FormatSelector::Wl4Rle16 ==> (if data@.len() % 2 != 0 {
            r == Err::<Vec<u8>, CodecError>(CodecError::InvalidLength)
        } else {
            r is Ok && spec_decode(r.unwrap()@) == Ok::<Seq<u8>, CodecError>(data@)
        }),
{
    match format {
        FormatSelector::Lz77 { vram_safe } => lz77::compress_lz77(data, vram_safe),
        FormatSelector::Huffman { four_bit_symbols } => huffman::compress_huffman(
            data,
            four_bit_symbols,
        ),
        FormatSelector::Rle => rle::compress_rle(data),
        FormatSelector::Diff8 => diff::filter_diff8(data),
        FormatSelector::Diff16 => diff::filter_diff16(data),
        FormatSelector::Wl4Rle => wl4::compress_wl4_rle(data),
        FormatSelector::Wl4Rle8 => wl4::compress_wl4_rle8(data),
        FormatSelector::Wl4Rle16 => wl4::compress_wl4_rle16(data),
    }
}

/// The digit character of a value below sixteen, upper case.
pub open spec fn spec_digit(d: int) -> char {
    if d == 0 {
        '0'
    } else if d == 1 {
        '1'
    } else if d == 2 {
        '2'
    } else if d == 3 {
        '3'
    } else if d == 4 {
        '4'
    } else if d == 5 {
        '5'
    } else if d == 6 {
        '6'
    } else if d == 7 {
        '7'
    } else if d == 8 {
        '8'
    } else if d == 9 {
        '9'
    } else if d == 10 {
        'A'
    } else if d == 11 {
        'B'
    } else if d == 12 {
        'C'
    } else if d == 13 {
        'D'
    } else if d == 14 {
        'E'
    } else {
        'F'
    }
}

/// The digits of `n`, upper-case hexadecimal or decimal, zero padded on
/// the left to at least `min_width` digits.
pub open spec fn spec_radix(n: int, hex: bool, min_width: int) -> Seq<char>
    recommends
        n >= 0,
    decreases n, min_width,
{
    let radix: int = if hex {
        16
    } else {
        10
    };
    if n < 0 {
        Seq::empty()
    } else if n < radix && min_width <= 1 {
        seq![spec_digit(n)]
    } else {
        spec_radix(n / radix, hex, if min_width <= 1 {
            0
        } else {
            min_width - 1
        }).push(spec_digit(n % radix))
    }
}

/// The digit character of a value below sixteen, as a one-character string.
fn digit_str(d: u8) -> (s: &'static str)
    requires
        d < 16,
    ensures
        s@ == seq![spec_digit(d as int)],
{
    let s: &'static str = match d {
        0 => "0",
        1 => "1",
        2 => "2",
        3 => "3",
        4 => "4",
        5 => "5",
        6 => "6",
        7 => "7",
        8 => "8",
        9 => "9",
        10 => "A",
        11 => "B",
        12 => "C",
        13 => "D",
        14 => "E",
        _ => "F",
    };
    proof {
        reveal_strlit("0");
        reveal_strlit("1");
        reveal_strlit("2");
        reveal_strlit("3");
        reveal_strlit("4");
        reveal_strlit("5");
        reveal_strlit("6");
        reveal_strlit("7");
        reveal_strlit("8");
        reveal_strlit("9");
        reveal_strlit("A");
        reveal_strlit("B");
        reveal_strlit("C");
        reveal_strlit("D");
        reveal_strlit("E");
        reveal_strlit("F");
        assert(s@ =~= seq![spec_digit(d as int)]);
    }
    s
}

/// Writes `n` in the given base, zero padded to at least `min_width`
/// digits.
fn format_radix(n: usize, hex: bool, min_width: usize) -> (s: String)
    requires
        min_width <= 16,
    ensures
        s@ == spec_radix(n as int, hex, min_width as int),
    decreases n, min_width,
{
    let radix: usize = if hex {
        16
    } else {
        10
    };
    let d = (n % radix) as u8;
    let ds = digit_str(d);
    if n < radix && min_width <= 1 {
        let s = String::from_str(ds);
        proof {
            assert(n % radix == n as int);
        }
        s
    } else {
        let next_width = if min_width <= 1 {
            0
        } else {
            min_width - 1
        };
        let mut s = format_radix(n / radix, hex, next_width);
        s.append(ds);
        proof {
            assert(s@ =~= spec_radix(n as int, hex, min_width as int));
        }
        s
    }
}

/// Writes an offset the way the search tools print it: six upper-case
/// hexadecimal digits, zero padded, or the plain decimal digits.
pub fn format_offset(offset: usize, is_hex: bool) -> (s: String)
    ensures
        is_hex ==> s@ == spec_radix(offset as int, true, 6),
        !is_hex ==> s@ == spec_radix(offset as int, false, 1),
{
    if is_hex {
        format_radix(offset, true, 6)
    } else {
        format_radix(offset, false, 1)
    }
}

/// Selects which of the wire formats `encode` produces.  `decode` never
/// needs one: it reads the format from the header tag.
#[derive(Clone, Copy, Debug, PartialEq, Eq, Structural)]
pub enum FormatSelector {
    /// Sliding-window match compression; in VRAM-safe mode the encoder
    /// avoids match distances 1 and 2.
    Lz77 { vram_safe: bool },
    /// Canonical-tree entropy coding over 4-bit or 8-bit symbols.
    Huffman { four_bit_symbols: bool },
    /// The firmware's escape-flagged run-length coding.
    Rle,
    /// Byte-wise delta filter.
    Diff8,
    /// Halfword-wise delta filter.
    Diff16,
    /// The game-specific run-length variant with inverted flag bits.
    Wl4Rle,
    /// The game-specific run-length variant over 8-bit elements.
    Wl4Rle8,
    /// The game-specific run-length variant over 16-bit elements.
    Wl4Rle16,
}

} // verus!
