//! The four-byte header every compressed stream begins with: a format tag
//! byte, then the declared decompressed size as a 24-bit little-endian
//! integer.

use vstd::prelude::*;

verus! {

/// The declared decompressed size of a stream: bytes 1 to 3 of the wire,
/// little endian.
pub open spec fn spec_header_size(wire: Seq<u8>) -> int
    recommends
        wire.len() >= 4,
{
    wire[1] + wire[2] * 0x100 + wire[3] * 0x1_0000
}

/// The four header bytes of a stream with the given format tag and declared
/// decompressed size.
pub open spec fn spec_header(tag: u8, size: int) -> Seq<u8>
    recommends
        0 <= size <= 0xFF_FFFF,
{
    seq![
        tag,
        (size % 0x100) as u8,
        ((size / 0x100) % 0x100) as u8,
        ((size / 0x1_0000) % 0x100) as u8,
    ]
}

/// The header round-trips: the size read back out of `spec_header` is the
/// size that was written, whatever follows the header.
pub proof fn lemma_header_size(tag: u8, size: int, rest: Seq<u8>)
    requires
        0 <= size <= 0xFF_FFFF,
    ensures
        spec_header_size(spec_header(tag, size) + rest) == size,
        (spec_header(tag, size) + rest)[0] == tag,
        (spec_header(tag, size) + rest).len() == 4 + rest.len(),
{
    let h = spec_header(tag, size) + rest;
    assert(h[1] == (size % 0x100) as u8);
    assert(h[2] == ((size / 0x100) % 0x100) as u8);
    assert(h[3] == ((size / 0x1_0000) % 0x100) as u8);
    assert(size % 0x100 + ((size / 0x100) % 0x100) * 0x100 + ((size / 0x1_0000) % 0x100) * 0x1_0000
        == size);
}

/// Builds the four header bytes for a stream of the given format tag that
/// declares `size` decompressed bytes.
pub fn make_header(tag: u8, size: usize) -> (h: Vec<u8>)
    requires
        size <= 0xFF_FFFF,
    ensures
        h@ == spec_header(tag, size as int),
        h@.len() == 4,
        h@[0] == tag,
        spec_header_size(h@) == size,
{
    let b1: u8 = (size % 0x100) as u8;
    let b2: u8 = ((size / 0x100) % 0x100) as u8;
    let b3: u8 = (size / 0x1_0000) as u8;
    let mut h: Vec<u8> = Vec::new();
    h.push(tag);
    h.push(b1);
    h.push(b2);
    h.push(b3);
    proof {
        assert(size / 0x1_0000 < 0x100);
        assert(h@ =~= spec_header(tag, size as int));
        lemma_header_size(tag, size as int, Seq::empty());
        assert(spec_header(tag, size as int) + Seq::empty() =~= h@);
    }
    h
}

/// Reads the declared decompressed size out of a stream's header.
pub fn read_header_size(wire: &Vec<u8>) -> (size: usize)
    requires
        wire@.len() >= 4,
    ensures
        size == spec_header_size(wire@),
        size <= 0xFF_FFFF,
{
    let b1 = wire[1] as usize;
    let b2 = wire[2] as usize;
    let b3 = wire[3] as usize;
    b1 + b2 * 0x100 + b3 * 0x1_0000
}

} // verus!
