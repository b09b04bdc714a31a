//! The sliding-window match compressor and its decoder.  Output is grouped
//! into blocks of up to eight units behind one flag byte whose bits, most
//! significant first, mark each unit as a literal byte (0) or a match (1).
//! A match unit packs `length - 3` into its first nibble and `distance - 1`
//! into the following twelve bits, and means: copy `length` bytes starting
//! `distance` bytes back in the output already produced, one byte at a time,
//! so that overlapping copies replicate recent output.

use vstd::prelude::*;

verus! {

use crate::CodecError;
use crate::bits::bit_at;
use crate::bits::p2u8;
use crate::bits::lemma_shift_up;
use crate::bits::lemma_new_low_bit;
use crate::header::spec_header;
use crate::header::spec_header_size;
use crate::header::lemma_header_size;
use crate::header::make_header;
use crate::header::read_header_size;
use vstd::arithmetic::power2::pow2;
use vstd::arithmetic::power2::lemma_pow2_unfold;
use vstd::arithmetic::power2::lemma_pow2_strictly_increases;
use vstd::arithmetic::power2::lemma2_to64;
use vstd::arithmetic::div_mod::lemma_fundamental_div_mod;

/// Format tag of a window-match compressed stream.
pub const LZ77_TAG: u8 = 0x10;

/// The longest distance a match can reach back.
pub const LZ77_MAX_DIST: usize = 4096;

/// The longest run a single match unit can copy.
pub const LZ77_MAX_LEN: usize = 18;

/// Copies `len` bytes from `dist` bytes back in `out`, one byte at a time,
/// appending each before the next is read, as the hardware copy does.
pub open spec fn spec_lz_copy(out: Seq<u8>, dist: int, len: int) -> Seq<u8>
    recommends
        1 <= dist <= out.len(),
    decreases len,
{
    if len <= 0 {
        out
    } else {
        spec_lz_copy(out.push(out[out.len() - dist]), dist, len - 1)
    }
}

/// What decoding the match payload `p` from byte `i` onward yields, with
/// `k` flag bits of `flags` still unconsumed and `out` already produced,
/// for a stream that declares `size` output bytes.  A distance below
/// `min_dist` is rejected; the wire format itself has `min_dist == 1`, and
/// `min_dist == 3` states that a stream never reaches back one or two bytes.
pub open spec fn spec_lz_decode(
    p: Seq<u8>,
    i: int,
    flags: u8,
    k: nat,
    out: Seq<u8>,
    size: int,
    min_dist: int,
) -> Result<Seq<u8>, CodecError>
    decreases p.len() - i,
{
    if out.len() >= size {
        Ok(out)
    } else if i < 0 || i >= p.len() {
        Err(CodecError::UnexpectedEof)
    } else if k == 0 {
        spec_lz_decode(p, i + 1, p[i], 8, out, size, min_dist)
    } else if !bit_at(flags as nat, (k - 1) as nat) {
        spec_lz_decode(p, i + 1, flags, (k - 1) as nat, out.push(p[i]), size, min_dist)
    } else if i + 2 > p.len() {
        Err(CodecError::UnexpectedEof)
    } else {
        let len = p[i] / 16 + 3;
        let dist = (p[i] % 16) * 0x100 + p[i + 1] + 1;
        if dist < min_dist || dist > out.len() {
            Err(CodecError::InvalidBackReference)
        } else if out.len() + len > size {
            Err(CodecError::SizeMismatch)
        } else {
            spec_lz_decode(
                p,
                i + 2,
                flags,
                (k - 1) as nat,
                spec_lz_copy(out, dist as int, len as int),
                size,
                min_dist,
            )
        }
    }
}

/// What decoding a whole window-match stream yields.
pub open spec fn spec_lz_stream(wire: Seq<u8>) -> Result<Seq<u8>, CodecError> {
    if wire.len() < 4 {
        Err(CodecError::UnexpectedEof)
    } else if wire[0] != LZ77_TAG {
        Err(CodecError::InvalidHeader)
    } else {
        spec_lz_decode(wire.skip(4), 0, 0, 0, Seq::empty(), spec_header_size(wire), 1)
    }
}

/// Like `spec_lz_decode`, but a successful decode also carries the payload
/// index just past the last byte the decoder read.
pub open spec fn spec_lz_decode_len(
    p: Seq<u8>,
    i: int,
    flags: u8,
    k: nat,
    out: Seq<u8>,
    size: int,
    min_dist: int,
) -> Result<(Seq<u8>, int), CodecError>
    decreases p.len() - i,
{
    if out.len() >= size {
        Ok((out, i))
    } else if i < 0 || i >= p.len() {
        Err(CodecError::UnexpectedEof)
    } else if k == 0 {
        spec_lz_decode_len(p, i + 1, p[i], 8, out, size, min_dist)
    } else if !bit_at(flags as nat, (k - 1) as nat) {
        spec_lz_decode_len(p, i + 1, flags, (k - 1) as nat, out.push(p[i]), size, min_dist)
    } else if i + 2 > p.len() {
        Err(CodecError::UnexpectedEof)
    } else {
        let len = p[i] / 16 + 3;
        let dist = (p[i] % 16) * 0x100 + p[i + 1] + 1;
        if dist < min_dist || dist > out.len() {
            Err(CodecError::InvalidBackReference)
        } else if out.len() + len > size {
            Err(CodecError::SizeMismatch)
        } else {
            spec_lz_decode_len(
                p,
                i + 2,
                flags,
                (k - 1) as nat,
                spec_lz_copy(out, dist as int, len as int),
                size,
                min_dist,
            )
        }
    }
}

/// What decoding a whole window-match stream yields together with the
/// number of wire bytes the stream occupies, header included.
pub open spec fn spec_lz_stream_len(wire: Seq<u8>) -> Result<(Seq<u8>, int), CodecError> {
    if wire.len() < 4 {
        Err(CodecError::UnexpectedEof)
    } else if wire[0] != LZ77_TAG {
        Err(CodecError::InvalidHeader)
    } else {
        match spec_lz_decode_len(wire.skip(4), 0, 0, 0, Seq::empty(), spec_header_size(wire), 1) {
            Ok(ou) => Ok((ou.0, 4 + ou.1)),
            Err(e) => Err(e),
        }
    }
}

/// The length-carrying decode agrees with the plain one: same bytes on
/// success, same error on failure, and the reported index never runs
/// backward or past the payload.
pub proof fn lemma_lz_len_agrees(
    p: Seq<u8>,
    i: int,
    flags: u8,
    k: nat,
    out: Seq<u8>,
    size: int,
    min_dist: int,
)
    requires
        0 <= i <= p.len(),
    ensures
        match spec_lz_decode_len(p, i, flags, k, out, size, min_dist) {
            Ok(ou) => spec_lz_decode(p, i, flags, k, out, size, min_dist) == Ok::<
                Seq<u8>,
                CodecError,
            >(ou.0) && i <= ou.1 <= p.len(),
            Err(e) => spec_lz_decode(p, i, flags, k, out, size, min_dist) == Err::<
                Seq<u8>,
                CodecError,
            >(e),
        },
    decreases p.len() - i,
{
    if out.len() >= size {
    } else if i < 0 || i >= p.len() {
    } else if k == 0 {
        lemma_lz_len_agrees(p, i + 1, p[i], 8, out, size, min_dist);
    } else if !bit_at(flags as nat, (k - 1) as nat) {
        lemma_lz_len_agrees(p, i + 1, flags, (k - 1) as nat, out.push(p[i]), size, min_dist);
    } else if i + 2 > p.len() {
    } else {
        let len = p[i] / 16 + 3;
        let dist = (p[i] % 16) * 0x100 + p[i + 1] + 1;
        if dist < min_dist || dist > out.len() {
        } else if out.len() + len > size {
        } else {
            lemma_lz_len_agrees(p, i + 2, flags, (k - 1) as nat, spec_lz_copy(
                out,
                dist as int,
                len as int,
            ), size, min_dist);
        }
    }
}

/// Decodes a window-match stream and also reports how many wire bytes the
/// stream occupies, header included — what a scan over a larger image needs
/// to step past the stream it found.  The existing decode's result is
/// unchanged: success gives its bytes plus the exact extent, failure gives
/// the same error.
pub fn decompress_lz77_len(wire: &Vec<u8>) -> (r: Result<(Vec<u8>, usize), CodecError>)
    ensures
        match r {
            Ok(ou) => spec_lz_stream_len(wire@) == Ok::<(Seq<u8>, int), CodecError>(
                (ou.0@, ou.1 as int),
            ) && spec_lz_stream(wire@) == Ok::<Seq<u8>, CodecError>(ou.0@) && 4 <= ou.1
                <= wire@.len(),
            Err(e) => spec_lz_stream_len(wire@) == Err::<(Seq<u8>, int), CodecError>(e)
                && spec_lz_stream(wire@) == Err::<Seq<u8>, CodecError>(e),
        },
{
    if wire.len() < 4 {
        return Err(CodecError::UnexpectedEof);
    }
    if wire[0] != LZ77_TAG {
        return Err(CodecError::InvalidHeader);
    }
    let size = read_header_size(wire);
    let ghost p = wire@.skip(4);
    let wlen = wire.len();
    let plen = wlen - 4;
    let mut out: Vec<u8> = Vec::new();
    let mut i: usize = 0;
    let mut flags: u8 = 0;
    let mut k: u8 = 0;
    while out.len() < size
        invariant
            size <= 0xFF_FFFF,
            wlen == wire@.len(),
            wlen == plen + 4,
            wire@[0] == LZ77_TAG,
            size == spec_header_size(wire@),
            p == wire@.skip(4),
            p.len() == plen,
            i <= plen,
            k <= 8,
            out@.len() <= size,
            spec_lz_decode_len(p, 0, 0, 0, Seq::empty(), size as int, 1) == spec_lz_decode_len(
                p,
                i as int,
                flags,
                k as nat,
                out@,
                size as int,
                1,
            ),
        decreases plen - i,
    {
        if i >= plen {
            proof {
                lemma_lz_len_agrees(p, 0, 0, 0, Seq::empty(), size as int, 1);
            }
            return Err(CodecError::UnexpectedEof);
        }
        if k == 0 {
            flags = wire[4 + i];
            proof {
                assert(p[i as int] == wire@[4 + i]);
            }
            k = 8;
            i = i + 1;
        } else {
            let bit = (flags / p2u8(k - 1)) % 2 == 1;
            if !bit {
                let b = wire[4 + i];
                proof {
                    assert(p[i as int] == wire@[4 + i]);
                }
                out.push(b);
                i = i + 1;
                k = k - 1;
            } else {
                if i + 2 > plen {
                    proof {
                        lemma_lz_len_agrees(p, 0, 0, 0, Seq::empty(), size as int, 1);
                    }
                    return Err(CodecError::UnexpectedEof);
                }
                let b0 = wire[4 + i];
                let b1 = wire[4 + i + 1];
                proof {
                    assert(p[i as int] == wire@[4 + i]);
                    assert(p[i as int + 1] == wire@[4 + i + 1]);
                }
                let len = (b0 / 16) as usize + 3;
                let dist = (b0 % 16) as usize * 0x100 + b1 as usize + 1;
                if dist > out.len() {
                    proof {
                        lemma_lz_len_agrees(p, 0, 0, 0, Seq::empty(), size as int, 1);
                    }
                    return Err(CodecError::InvalidBackReference);
                }
                if out.len() + len > size {
                    proof {
                        lemma_lz_len_agrees(p, 0, 0, 0, Seq::empty(), size as int, 1);
                    }
                    return Err(CodecError::SizeMismatch);
                }
                let ghost prev_out = out@;
                let mut c: usize = 0;
                while c < len
                    invariant
                        c <= len,
                        1 <= dist <= prev_out.len(),
                        out@.len() == prev_out.len() + c,
                        spec_lz_copy(out@, dist as int, (len - c) as int) == spec_lz_copy(
                            prev_out,
                            dist as int,
                            len as int,
                        ),
                    decreases len - c,
                {
                    let b = out[out.len() - dist];
                    out.push(b);
                    c += 1;
                }
                i = i + 2;
                k = k - 1;
            }
        }
    }
    proof {
        assert(spec_lz_decode_len(p, i as int, flags, k as nat, out@, size as int, 1) == Ok::<
            (Seq<u8>, int),
            CodecError,
        >((out@, i as int)));
        lemma_lz_len_agrees(p, 0, 0, 0, Seq::empty(), size as int, 1);
    }
    Ok((out, 4 + i))
}

/// Decodes a window-match stream.  The result is exactly what the wire
/// format promises: every literal copied, every match replayed from the
/// output produced so far, and the declared size reached exactly.
pub fn decompress_lz77(wire: &Vec<u8>) -> (r: Result<Vec<u8>, CodecError>)
    ensures
        crate::res_view(r) == spec_lz_stream(wire@),
{
    if wire.len() < 4 {
        return Err(CodecError::UnexpectedEof);
    }
    if wire[0] != LZ77_TAG {
        return Err(CodecError::InvalidHeader);
    }
    let size = read_header_size(wire);
    let ghost p = wire@.skip(4);
    let wlen = wire.len();
    let plen = wlen - 4;
    let mut out: Vec<u8> = Vec::new();
    let mut i: usize = 0;
    let mut flags: u8 = 0;
    let mut k: u8 = 0;
    while out.len() < size
        invariant
            size <= 0xFF_FFFF,
            wlen == wire@.len(),
            wlen == plen + 4,
            wire@[0] == LZ77_TAG,
            size == spec_header_size(wire@),
            p == wire@.skip(4),
            p.len() == plen,
            i <= plen,
            k <= 8,
            out@.len() <= size,
            spec_lz_decode(p, 0, 0, 0, Seq::empty(), size as int, 1) == spec_lz_decode(
                p,
                i as int,
                flags,
                k as nat,
                out@,
                size as int,
                1,
            ),
        decreases plen - i,
    {
        if i >= plen {
            return Err(CodecError::UnexpectedEof);
        }
        if k == 0 {
            flags = wire[4 + i];
            proof {
                assert(p[i as int] == wire@[4 + i]);
            }
            k = 8;
            i = i + 1;
        } else {
            let bit = (flags / p2u8(k - 1)) % 2 == 1;
            if !bit {
                let b = wire[4 + i];
                proof {
                    assert(p[i as int] == wire@[4 + i]);
                }
                out.push(b);
                i = i + 1;
                k = k - 1;
            } else {
                if i + 2 > plen {
                    return Err(CodecError::UnexpectedEof);
                }
                let b0 = wire[4 + i];
                let b1 = wire[4 + i + 1];
                proof {
                    assert(p[i as int] == wire@[4 + i]);
                    assert(p[i as int + 1] == wire@[4 + i + 1]);
                }
                let len = (b0 / 16) as usize + 3;
                let dist = (b0 % 16) as usize * 0x100 + b1 as usize + 1;
                if dist > out.len() {
                    return Err(CodecError::InvalidBackReference);
                }
                if out.len() + len > size {
                    return Err(CodecError::SizeMismatch);
                }
                let ghost prev_out = out@;
                let mut c: usize = 0;
                while c < len
                    invariant
                        c <= len,
                        1 <= dist <= prev_out.len(),
                        out@.len() == prev_out.len() + c,
                        spec_lz_copy(out@, dist as int, (len - c) as int) == spec_lz_copy(
                            prev_out,
                            dist as int,
                            len as int,
                        ),
                    decreases len - c,
                {
                    let b = out[out.len() - dist];
                    out.push(b);
                    c += 1;
                }
                i = i + 2;
                k = k - 1;
            }
        }
    }
    proof {
        assert(spec_lz_decode(p, i as int, flags, k as nat, out@, size as int, 1) == Ok::<
            Seq<u8>,
            CodecError,
        >(out@));
    }
    Ok(out)
}

/// Replaying a match over output that equals a prefix of the input extends
/// that prefix, byte by byte, overlapping copies included.
proof fn lemma_lz_copy_matches(data: Seq<u8>, pos: int, dist: int, len: int)
    requires
        1 <= dist <= pos,
        0 <= len,
        pos + len <= data.len(),
        forall|j: int| 0 <= j < len ==> #[trigger] data[pos + j] == data[pos + j - dist],
    ensures
        spec_lz_copy(data.take(pos), dist, len) == data.take(pos + len),
    decreases len,
{
    if len > 0 {
        assert(data[pos + 0] == data[pos + 0 - dist]);
        assert(data.take(pos).push(data.take(pos)[pos - dist]) =~= data.take(pos + 1));
        assert forall|j: int| 0 <= j < len - 1 implies #[trigger] data[(pos + 1) + j] == data[(pos
            + 1) + j - dist] by {
            assert(data[pos + (j + 1)] == data[pos + (j + 1) - dist]);
        }
        lemma_lz_copy_matches(data, pos + 1, dist, len - 1);
    } else {
        assert(data.take(pos) =~= data.take(pos + len));
    }
}

/// When no flag bits are left, the flag register's value does not matter:
/// the next step reads a fresh flag byte either way.
proof fn lemma_lz_flags_done(p: Seq<u8>, i: int, f1: u8, f2: u8, out: Seq<u8>, size: int, md: int)
    ensures
        spec_lz_decode(p, i, f1, 0, out, size, md) == spec_lz_decode(p, i, f2, 0, out, size, md),
{
    if out.len() >= size {
    } else if i < 0 || i >= p.len() {
    } else {
        assert(spec_lz_decode(p, i, f1, 0, out, size, md) == spec_lz_decode(
            p,
            i + 1,
            p[i],
            8,
            out,
            size,
            md,
        ));
        assert(spec_lz_decode(p, i, f2, 0, out, size, md) == spec_lz_decode(
            p,
            i + 1,
            p[i],
            8,
            out,
            size,
            md,
        ));
    }
}

/// How many bytes match when copying from `dist` back at `pos`: the first
/// index `j`, from `start` up to `cap`, at which the byte differs from the
/// byte `dist` earlier.
pub open spec fn spec_lz_match_scan(d: Seq<u8>, pos: int, dist: int, j: int, cap: int) -> int
    decreases cap - j,
{
    if j >= cap || d[pos + j] != d[pos + j - dist] {
        j
    } else {
        spec_lz_match_scan(d, pos, dist, j + 1, cap)
    }
}

/// The longest match the window offers at `pos` and the nearest distance
/// achieving it, as a pair of length and distance, scanning distances
/// upward from `d2` with the best seen so far in hand.  A length below
/// three means no usable match.
pub open spec fn spec_lz_best_scan(
    d: Seq<u8>,
    pos: int,
    d2: int,
    bl: int,
    bd: int,
) -> (int, int)
    decreases (if pos < 4096 {
        pos
    } else {
        4096
    }) + 1 - d2,
{
    let dmax = if pos < 4096 {
        pos
    } else {
        4096
    };
    if d2 < 1 || d2 > dmax {
        (bl, bd)
    } else {
        let cap = if d.len() - pos < 18 {
            d.len() - pos
        } else {
            18
        };
        let l = spec_lz_match_scan(d, pos, d2, 0, cap);
        if l > bl {
            spec_lz_best_scan(d, pos, d2 + 1, l, d2)
        } else {
            spec_lz_best_scan(d, pos, d2 + 1, bl, bd)
        }
    }
}

/// The match the greedy encoder uses at `pos`: the longest one the window
/// offers, the nearest distance on ties, distances 1 and 2 excluded in
/// VRAM-safe mode; a length below three means a literal is emitted instead.
pub open spec fn spec_lz_best(d: Seq<u8>, pos: int, vram_safe: bool) -> (int, int) {
    let cap = if d.len() - pos < 18 {
        d.len() - pos
    } else {
        18
    };
    if cap < 3 {
        (0, 0)
    } else {
        spec_lz_best_scan(d, pos, if vram_safe {
            3
        } else {
            1
        }, 0, 0)
    }
}

/// One group of up to eight units as the greedy encoder forms it from
/// `pos`, unit `j` onward: the serialized unit bytes, the value of the flag
/// byte's remaining bits, and the input position after the group.
pub open spec fn spec_lz_group(d: Seq<u8>, pos: int, vram_safe: bool, j: int) -> (Seq<u8>, int, int)
    decreases 8 - j,
{
    if j >= 8 || pos < 0 || pos >= d.len() {
        (Seq::empty(), 0, pos)
    } else {
        let best = spec_lz_best(d, pos, vram_safe);
        if best.0 >= 3 {
            let b0 = ((best.0 - 3) * 16 + (best.1 - 1) / 0x100) as u8;
            let b1 = ((best.1 - 1) % 0x100) as u8;
            let rest = spec_lz_group(d, pos + best.0, vram_safe, j + 1);
            (seq![b0, b1] + rest.0, pow2((7 - j) as nat) + rest.1, rest.2)
        } else {
            let rest = spec_lz_group(d, pos + 1, vram_safe, j + 1);
            (seq![d[pos]] + rest.0, rest.1, rest.2)
        }
    }
}

/// The payload the greedy encoder produces from `pos` onward: flag byte,
/// then the group's units, group after group.  The guards only keep the
/// function total; the encoder's proof shows they always hold.
pub open spec fn spec_lz_payload(d: Seq<u8>, pos: int, vram_safe: bool) -> Seq<u8>
    decreases d.len() - pos,
{
    if pos < 0 || pos >= d.len() {
        Seq::empty()
    } else {
        let g = spec_lz_group(d, pos, vram_safe, 0);
        if pos < g.2 <= d.len() {
            seq![g.1 as u8] + g.0 + spec_lz_payload(d, g.2, vram_safe)
        } else {
            Seq::empty()
        }
    }
}

/// Whether a match of `len` bytes at distance `dist` behind `pos` would
/// copy exactly the input bytes at `pos`.
pub open spec fn spec_match_at(data: Seq<u8>, pos: int, dist: int, len: int) -> bool {
    &&& 1 <= dist <= pos
    &&& 0 <= len
    &&& pos + len <= data.len()
    &&& forall|j: int| 0 <= j < len ==> #[trigger] data[pos + j] == data[pos + j - dist]
}

/// The distances the encoder may use at `pos`: within the window, and
/// clear of the two nearest bytes in VRAM-safe mode.
pub open spec fn spec_dist_allowed(pos: int, dist: int, vram_safe: bool) -> bool {
    &&& (if vram_safe {
        3int
    } else {
        1int
    }) <= dist <= 4096
    &&& dist <= pos
}

/// The lengths a single match unit may copy at `pos`: at most 18 and never
/// past the end of the input.
pub open spec fn spec_len_allowed(data: Seq<u8>, pos: int, len: int) -> bool {
    len <= 18 && pos + len <= data.len()
}

/// Searches the window behind `pos` for the longest earlier occurrence of
/// the bytes at `pos`, preferring the smallest distance on ties, so that
/// the encoder's output is reproducible.  In VRAM-safe mode distances 1 and
/// 2 are never candidates.  A returned match copies exactly the input bytes
/// it stands for, no allowed match is longer, and no allowed match of the
/// same length is nearer; nothing is returned only when no allowed match of
/// at least three bytes exists.
pub fn find_match(data: &Vec<u8>, pos: usize, vram_safe: bool) -> (m: Option<(usize, usize)>)
    requires
        pos < data@.len(),
        data@.len() <= 0xFF_FFFF,
    ensures
        m is Some ==> ({
            let (dist, len) = m.unwrap();
            &&& 3 <= len <= 18
            &&& spec_match_at(data@, pos as int, dist as int, len as int)
            &&& spec_dist_allowed(pos as int, dist as int, vram_safe)
            &&& (vram_safe ==> dist >= 3)
            &&& forall|d2: int, l2: int|
                spec_dist_allowed(pos as int, d2, vram_safe) && spec_len_allowed(
                    data@,
                    pos as int,
                    l2,
                ) && #[trigger] spec_match_at(data@, pos as int, d2, l2) ==> l2 <= len
            &&& forall|d2: int|
                spec_dist_allowed(pos as int, d2, vram_safe) && #[trigger] spec_match_at(
                    data@,
                    pos as int,
                    d2,
                    len as int,
                ) ==> dist <= d2
        }),
        m is None ==> forall|d2: int, l2: int|
            spec_dist_allowed(pos as int, d2, vram_safe) && spec_len_allowed(data@, pos as int, l2)
                && #[trigger] spec_match_at(data@, pos as int, d2, l2) ==> l2 < 3,
        m is Some ==> spec_lz_best(data@, pos as int, vram_safe) == (
            m.unwrap().1 as int,
            m.unwrap().0 as int,
        ),
        m is None ==> spec_lz_best(data@, pos as int, vram_safe).0 < 3,
{
    let remaining = data.len() - pos;
    let cap = if remaining < LZ77_MAX_LEN {
        remaining
    } else {
        LZ77_MAX_LEN
    };
    let dmax = if pos < LZ77_MAX_DIST {
        pos
    } else {
        LZ77_MAX_DIST
    };
    let dmin: usize = if vram_safe {
        3
    } else {
        1
    };
    if cap < 3 {
        proof {
            assert(spec_lz_best(data@, pos as int, vram_safe).0 < 3);
            assert forall|d2: int, l2: int|
                spec_dist_allowed(pos as int, d2, vram_safe) && spec_len_allowed(
                    data@,
                    pos as int,
                    l2,
                ) && #[trigger] spec_match_at(data@, pos as int, d2, l2) implies l2 < 3 by {
                assert(pos + l2 <= data@.len());
            }
        }
        return None;
    }
    let mut best_dist: usize = 0;
    let mut best_len: usize = 0;
    let mut d = dmin;
    while d <= dmax
        invariant
            pos < data@.len(),
            data@.len() <= 0xFF_FFFF,
            cap <= data@.len() - pos,
            cap <= 18,
            3 <= cap,
            cap == (if data@.len() - pos < 18 { data@.len() - pos } else { 18int }),
            dmax <= pos,
            dmax <= 4096,
            dmax == (if pos < 4096 { pos as int } else { 4096int }),
            dmin >= 1,
            d >= dmin,
            dmin == (if vram_safe { 3int } else { 1int }),
            best_len > 0 ==> (dmin <= best_dist <= dmax && best_dist < d && best_len <= cap
                && spec_match_at(data@, pos as int, best_dist as int, best_len as int)),
            spec_lz_best_scan(data@, pos as int, dmin as int, 0, 0) == spec_lz_best_scan(
                data@,
                pos as int,
                d as int,
                best_len as int,
                best_dist as int,
            ),
            forall|d2: int, l2: int|
                dmin <= d2 < d && d2 <= dmax && spec_len_allowed(data@, pos as int, l2)
                    && #[trigger] spec_match_at(data@, pos as int, d2, l2) ==> l2 <= best_len,
            forall|d2: int|
                dmin <= d2 < d && d2 <= dmax && best_len > 0 && #[trigger] spec_match_at(
                    data@,
                    pos as int,
                    d2,
                    best_len as int,
                ) ==> best_dist <= d2,
        decreases dmax + 1 - d,
    {
        let mut l: usize = 0;
        while l < cap && data[pos + l - d] == data[pos + l]
            invariant
                pos < data@.len(),
                data@.len() <= 0xFF_FFFF,
                cap <= data@.len() - pos,
                cap <= 18,
                cap == (if data@.len() - pos < 18 { data@.len() - pos } else { 18int }),
                1 <= d <= pos,
                l <= cap,
                spec_lz_match_scan(data@, pos as int, d as int, 0, cap as int)
                    == spec_lz_match_scan(data@, pos as int, d as int, l as int, cap as int),
                forall|j: int| 0 <= j < l ==> #[trigger] data@[pos + j] == data@[pos + j - d],
            decreases cap - l,
        {
            l += 1;
        }
        proof {
            assert(spec_lz_match_scan(data@, pos as int, d as int, 0, cap as int) == l as int);
        }
        proof {
            assert(spec_match_at(data@, pos as int, d as int, l as int));
            assert forall|l2: int|
                spec_len_allowed(data@, pos as int, l2) && #[trigger] spec_match_at(
                    data@,
                    pos as int,
                    d as int,
                    l2,
                ) implies l2 <= l by {
                if l2 > l {
                    assert(l < cap);
                    assert(data@[pos + l] == data@[pos + l - d]);
                }
            }
        }
        let ghost ob_len = best_len as int;
        let ghost ob_dist = best_dist as int;
        if l > best_len {
            best_len = l;
            best_dist = d;
        }
        proof {
            assert(spec_lz_best_scan(data@, pos as int, d as int, ob_len, ob_dist)
                == spec_lz_best_scan(data@, pos as int, d as int + 1, best_len as int,
                best_dist as int));
            assert forall|d2: int|
                dmin <= d2 < d + 1 && d2 <= dmax && best_len > 0 && #[trigger] spec_match_at(
                    data@,
                    pos as int,
                    d2,
                    best_len as int,
                ) implies best_dist <= d2 by {
                if l > ob_len && d2 < d {
                    assert(spec_len_allowed(data@, pos as int, best_len as int));
                    assert(best_len <= ob_len);
                }
            }
        }
        d += 1;
    }
    proof {
        assert(spec_lz_best_scan(data@, pos as int, d as int, best_len as int, best_dist as int)
            == (best_len as int, best_dist as int));
        assert(spec_lz_best(data@, pos as int, vram_safe) == (best_len as int, best_dist as int));
    }
    if best_len >= 3 {
        proof {
            assert forall|d2: int|
                spec_dist_allowed(pos as int, d2, vram_safe) && #[trigger] spec_match_at(
                    data@,
                    pos as int,
                    d2,
                    best_len as int,
                ) implies best_dist <= d2 by {
                assert(dmin <= d2 <= dmax);
            }
        }
        Some((best_dist, best_len))
    } else {
        proof {
            assert forall|d2: int, l2: int|
                spec_dist_allowed(pos as int, d2, vram_safe) && spec_len_allowed(
                    data@,
                    pos as int,
                    l2,
                ) && #[trigger] spec_match_at(data@, pos as int, d2, l2) implies l2 < 3 by {
                assert(dmin <= d2 <= dmax);
                assert(l2 <= best_len);
            }
        }
        None
    }
}

/// Compresses `data` into a window-match stream: at each position the unit
/// is the match `find_match` chooses — the longest allowed one, nearest on
/// ties, as that function's contract states — or a literal byte where none
/// of at least three bytes exists.  Decoding the result restores `data`
/// exactly, and in VRAM-safe mode the stream also decodes under the
/// stricter rule that forbids distances 1 and 2 — no such match is ever
/// emitted.
#[verifier::rlimit(100)]
pub fn compress_lz77(data: &Vec<u8>, vram_safe: bool) -> (r: Result<Vec<u8>, CodecError>)
    requires
        data@.len() <= 0xFF_FFFF,
    ensures
        r is Ok,
        r.unwrap()@.len() >= 4 && r.unwrap()@[0] == LZ77_TAG,
        spec_header_size(r.unwrap()@) == data@.len(),
        r.unwrap()@ == spec_header(LZ77_TAG, data@.len() as int) + spec_lz_payload(
            data@,
            0,
            vram_safe,
        ),
        spec_lz_stream(r.unwrap()@) == Ok::<Seq<u8>, CodecError>(data@),
        vram_safe ==> spec_lz_decode(
            r.unwrap()@.skip(4),
            0,
            0,
            0,
            Seq::empty(),
            data@.len() as int,
            3,
        ) == Ok::<Seq<u8>, CodecError>(data@),
{
    let size = data.len();
    let mut pl: Vec<u8> = Vec::new();
    let mut pos: usize = 0;
    proof {
        assert(data@.take(0) =~= Seq::<u8>::empty());
        assert(Seq::<u8>::empty() + spec_lz_payload(data@, 0, vram_safe) =~= spec_lz_payload(
            data@,
            0,
            vram_safe,
        ));
    }
    while pos < size
        invariant
            size == data@.len(),
            size <= 0xFF_FFFF,
            pos <= size,
            spec_lz_payload(data@, 0, vram_safe) == pl@ + spec_lz_payload(
                data@,
                pos as int,
                vram_safe,
            ),
            forall|q: Seq<u8>, md: int|
                (md == 1 || (vram_safe && md == 3)) ==> #[trigger] spec_lz_decode(
                    pl@ + q,
                    0,
                    0,
                    0,
                    Seq::empty(),
                    size as int,
                    md,
                ) == spec_lz_decode(
                    pl@ + q,
                    pl@.len() as int,
                    0,
                    0,
                    data@.take(pos as int),
                    size as int,
                    md,
                ),
        decreases size - pos,
    {
        let ghost group_pl = pl@;
        let ghost group_pos = pos as int;
        let mut ub: Vec<u8> = Vec::new();
        let mut flags_acc: u8 = 0;
        let mut j: usize = 0;
        let ghost mut mseq: Seq<bool> = Seq::empty();
        proof {
            lemma2_to64();
            assert(Seq::<u8>::empty() + spec_lz_group(data@, group_pos, vram_safe, 0).0
                =~= spec_lz_group(data@, group_pos, vram_safe, 0).0);
        }
        while j < 8 && pos < size
            invariant
                size == data@.len(),
                size <= 0xFF_FFFF,
                group_pos <= pos <= size,
                group_pos < size,
                j <= 8,
                j == 0 ==> pos == group_pos,
                j > 0 ==> pos > group_pos,
                mseq.len() == j,
                (flags_acc as nat) < pow2(j as nat),
                spec_lz_group(data@, group_pos, vram_safe, 0).0 == ub@ + spec_lz_group(
                    data@,
                    pos as int,
                    vram_safe,
                    j as int,
                ).0,
                spec_lz_group(data@, group_pos, vram_safe, 0).1 == (flags_acc as int) * pow2(
                    (8 - j) as nat,
                ) + spec_lz_group(data@, pos as int, vram_safe, j as int).1,
                spec_lz_group(data@, group_pos, vram_safe, 0).2 == spec_lz_group(
                    data@,
                    pos as int,
                    vram_safe,
                    j as int,
                ).2,
                forall|t: int|
                    0 <= t < j ==> bit_at(flags_acc as nat, (j - 1 - t) as nat) == mseq[t],
                forall|q: Seq<u8>, fb: u8, md: int|
                    ((md == 1 || (vram_safe && md == 3)) && (forall|t: int|
                        0 <= t < mseq.len() ==> bit_at(fb as nat, (7 - t) as nat) == mseq[t]))
                        ==> #[trigger] spec_lz_decode(
                        group_pl + (seq![fb] + ub@ + q),
                        group_pl.len() as int + 1,
                        fb,
                        8,
                        data@.take(group_pos),
                        size as int,
                        md,
                    ) == spec_lz_decode(
                        group_pl + (seq![fb] + ub@ + q),
                        group_pl.len() as int + 1 + ub@.len(),
                        fb,
                        (8 - mseq.len()) as nat,
                        data@.take(pos as int),
                        size as int,
                        md,
                    ),
            decreases 8 - j,
        {
            let ghost ub_old = ub@;
            let ghost pos_old = pos as int;
            let ghost j_old = j as int;
            let ghost mseq_old = mseq;
            let ghost flags_old = flags_acc as nat;
            proof {
                lemma_pow2_strictly_increases(j as nat, 8);
                lemma2_to64();
            }
            let m = find_match(data, pos, vram_safe);
            let mut is_match = false;
            let ghost mut gdist: int = 0;
            let ghost mut glen: int = 0;
            if let Some((dist, len)) = m {
                is_match = true;
                let hi = ((dist - 1) / 0x100) as u8;
                let lo = ((dist - 1) % 0x100) as u8;
                let b0 = ((len - 3) as u8) * 16 + hi;
                ub.push(b0);
                ub.push(lo);
                pos = pos + len;
                flags_acc = flags_acc * 2 + 1;
                proof {
                    mseq = mseq.push(true);
                    gdist = dist as int;
                    glen = len as int;
                    lemma_fundamental_div_mod(dist as int - 1, 0x100);
                }
            } else {
                let b = data[pos];
                ub.push(b);
                pos = pos + 1;
                flags_acc = flags_acc * 2;
                proof {
                    mseq = mseq.push(false);
                }
            }
            j += 1;
            proof {
                let m_low: nat = if is_match {
                    1
                } else {
                    0
                };
                assert(flags_acc as nat == 2 * flags_old + m_low);
                lemma_pow2_unfold((j as nat));
                let g_old = spec_lz_group(data@, pos_old, vram_safe, j_old);
                let g_new = spec_lz_group(data@, pos as int, vram_safe, j as int);
                let best = spec_lz_best(data@, pos_old, vram_safe);
                assert(g_old.0 == ub@.subrange(ub_old.len() as int, ub@.len() as int) + g_new.0
                    && g_old.1 == m_low * pow2((7 - j_old) as nat) + g_new.1 && g_old.2
                    == g_new.2) by {
                    if is_match {
                        assert(best == (glen, gdist));
                        assert(0 <= (gdist - 1) / 0x100 < 16);
                        assert(ub@[ub_old.len() as int] as int == (glen - 3) * 16 + (gdist - 1)
                            / 0x100);
                        assert(ub@[ub_old.len() as int + 1] as int == (gdist - 1) % 0x100);
                        assert(ub@.subrange(ub_old.len() as int, ub@.len() as int) =~= seq![
                            (((glen - 3) * 16 + (gdist - 1) / 0x100) as u8),
                            (((gdist - 1) % 0x100) as u8),
                        ]);
                    } else {
                        assert(best.0 < 3);
                        assert(ub@.subrange(ub_old.len() as int, ub@.len() as int) =~= seq![
                            data@[pos_old],
                        ]);
                    }
                }
                assert((flags_acc as int) * pow2((8 - j) as nat) == (flags_old as int) * pow2(
                    (8 - j_old) as nat,
                ) + m_low * pow2((7 - j_old) as nat)) by {
                    lemma_pow2_unfold((8 - j_old) as nat);
                    assert(((8 - j_old) as nat - 1) as nat == (7 - j_old) as nat);
                    assert((8 - j) as nat == (7 - j_old) as nat);
                    let p7 = pow2((7 - j_old) as nat) as int;
                    assert(pow2((8 - j_old) as nat) == 2 * p7);
                    assert((2 * flags_old + m_low) * p7 == 2 * (flags_old * p7) + m_low * p7)
                        by (nonlinear_arith);
                    assert((flags_old as int) * (2 * p7) == 2 * ((flags_old as int) * p7))
                        by (nonlinear_arith);
                }
                assert(spec_lz_group(data@, group_pos, vram_safe, 0).0 == ub@ + g_new.0) by {
                    assert(ub_old + (ub@.subrange(ub_old.len() as int, ub@.len() as int) + g_new.0)
                        =~= ub@ + g_new.0);
                }
                assert forall|t: int| 0 <= t < j implies bit_at(
                    flags_acc as nat,
                    (j - 1 - t) as nat,
                ) == mseq[t] by {
                    if t < j_old {
                        lemma_shift_up(flags_old, m_low, (j - 1 - t) as nat);
                        assert(bit_at(flags_old, (j_old - 1 - t) as nat) == mseq_old[t]);
                    } else {
                        lemma_new_low_bit(flags_old, m_low);
                    }
                }
                let unit = ub@.subrange(ub_old.len() as int, ub@.len() as int);
                assert forall|q: Seq<u8>, fb: u8, md: int|
                    ((md == 1 || (vram_safe && md == 3)) && (forall|t: int|
                        0 <= t < mseq.len() ==> bit_at(fb as nat, (7 - t) as nat) == mseq[t]))
                        implies #[trigger] spec_lz_decode(
                        group_pl + (seq![fb] + ub@ + q),
                        group_pl.len() as int + 1,
                        fb,
                        8,
                        data@.take(group_pos),
                        size as int,
                        md,
                    ) == spec_lz_decode(
                        group_pl + (seq![fb] + ub@ + q),
                        group_pl.len() as int + 1 + ub@.len(),
                        fb,
                        (8 - mseq.len()) as nat,
                        data@.take(pos as int),
                        size as int,
                        md,
                    ) by {
                    let qx = unit + q;
                    assert(seq![fb] + ub@ + q =~= seq![fb] + ub_old + qx);
                    assert(group_pl + (seq![fb] + ub@ + q) =~= group_pl + (seq![fb] + ub_old
                        + qx));
                    assert forall|t: int| 0 <= t < mseq_old.len() implies bit_at(
                        fb as nat,
                        (7 - t) as nat,
                    ) == mseq_old[t] by {
                        assert(bit_at(fb as nat, (7 - t) as nat) == mseq[t]);
                    }
                    assert(spec_lz_decode(group_pl + (seq![fb] + ub_old + qx),
                        group_pl.len() as int + 1, fb, 8, data@.take(group_pos), size as int, md)
                        == spec_lz_decode(group_pl + (seq![fb] + ub_old + qx), group_pl.len() as int + 1
                        + ub_old.len(), fb, (8 - mseq_old.len()) as nat, data@.take(pos_old),
                        size as int, md));
                    let s = group_pl + (seq![fb] + ub@ + q);
                    let i1 = group_pl.len() + 1 + ub_old.len();
                    assert(s[i1 as int] == ub@[ub_old.len() as int]);
                    assert(data@.take(pos_old).len() == pos_old);
                    assert(bit_at(fb as nat, (8 - mseq_old.len() - 1) as nat) == mseq[j_old]);
                    if is_match {
                        let b0v = ub@[ub_old.len() as int];
                        let b1v = ub@[ub_old.len() as int + 1];
                        assert(s[i1 as int + 1] == b1v);
                        lemma_lz_copy_helper(data@, pos_old, gdist, glen, b0v, b1v, size as int);
                        assert((b0v % 16) as int * 0x100 + b1v + 1 == gdist);
                        assert((b0v / 16) as int + 3 == glen);
                        assert(md == 3 ==> gdist >= 3);
                        assert(spec_lz_decode(s, i1 as int, fb, (8 - mseq_old.len()) as nat,
                            data@.take(pos_old), size as int, md) == spec_lz_decode(s, i1 as int + 2, fb,
                            (8 - mseq.len()) as nat, data@.take(pos as int), size as int, md));
                    } else {
                        assert(data@.take(pos_old).push(data@[pos_old]) =~= data@.take(pos_old
                            + 1));
                        assert(spec_lz_decode(s, i1 as int, fb, (8 - mseq_old.len()) as nat,
                            data@.take(pos_old), size as int, md) == spec_lz_decode(s, i1 as int + 1, fb,
                            (8 - mseq.len()) as nat, data@.take(pos as int), size as int, md));
                    }
                }
            }
        }
        let units = j;
        let ghost nunits = mseq.len() as int;
        proof {
            assert(pos > group_pos);
            assert(spec_lz_group(data@, pos as int, vram_safe, units as int) == (
                Seq::<u8>::empty(),
                0int,
                pos as int,
            ));
            assert(spec_lz_group(data@, group_pos, vram_safe, 0).0 == ub@) by {
                assert(ub@ + Seq::<u8>::empty() =~= ub@);
            }
        }
        while j < 8
            invariant
                units <= j <= 8,
                mseq.len() == units,
                (flags_acc as nat) < pow2(j as nat),
                spec_lz_group(data@, group_pos, vram_safe, 0).1 == (flags_acc as int) * pow2(
                    (8 - j) as nat,
                ),
                forall|t: int|
                    0 <= t < mseq.len() ==> bit_at(flags_acc as nat, (j - 1 - t) as nat) == mseq[t],
            decreases 8 - j,
        {
            let ghost flags_old = flags_acc as nat;
            let ghost j_old = j as int;
            proof {
                lemma_pow2_strictly_increases(j as nat, 8);
                lemma2_to64();
            }
            flags_acc = flags_acc * 2;
            j += 1;
            proof {
                lemma_pow2_unfold(j as nat);
                assert forall|t: int| 0 <= t < mseq.len() implies bit_at(
                    flags_acc as nat,
                    (j - 1 - t) as nat,
                ) == mseq[t] by {
                    lemma_shift_up(flags_old, 0, (j - 1 - t) as nat);
                    assert(bit_at(flags_old, (j_old - 1 - t) as nat) == mseq[t]);
                }
                assert((flags_acc as int) * pow2((8 - j) as nat) == (flags_old as int) * pow2(
                    (8 - j_old) as nat,
                )) by {
                    lemma_pow2_unfold((8 - j_old) as nat);
                    let p7 = pow2((8 - j) as nat);
                    assert((2 * flags_old) * p7 == flags_old * (2 * p7)) by (nonlinear_arith);
                    assert((8 - j_old) - 1 == 8 - j);
                }
            }
        }
        let ghost ubv = ub@;
        pl.push(flags_acc);
        pl.append(&mut ub);
        proof {
            assert(pl@ =~= group_pl + (seq![flags_acc] + ubv));
            assert(spec_lz_group(data@, group_pos, vram_safe, 0).1 == flags_acc as int) by {
                lemma2_to64();
                assert(j == 8);
                assert((8 - j) as nat == 0);
                assert(pow2(0) == 1);
                assert((flags_acc as int) * 1 == flags_acc as int);
            }
            assert(spec_lz_payload(data@, group_pos, vram_safe) == seq![flags_acc] + ubv
                + spec_lz_payload(data@, pos as int, vram_safe)) by {
                let g = spec_lz_group(data@, group_pos, vram_safe, 0);
                assert(group_pos < g.2 <= data@.len());
                assert((g.1 as u8) == flags_acc);
            }
            assert(spec_lz_payload(data@, 0, vram_safe) == pl@ + spec_lz_payload(
                data@,
                pos as int,
                vram_safe,
            )) by {
                assert(group_pl + (seq![flags_acc] + ubv + spec_lz_payload(
                    data@,
                    pos as int,
                    vram_safe,
                )) =~= pl@ + spec_lz_payload(data@, pos as int, vram_safe));
            }
            assert forall|q: Seq<u8>, md: int| (md == 1 || (vram_safe && md == 3))
                implies #[trigger] spec_lz_decode(
                pl@ + q,
                0,
                0,
                0,
                Seq::empty(),
                size as int,
                md,
            ) == spec_lz_decode(
                pl@ + q,
                pl@.len() as int,
                0,
                0,
                data@.take(pos as int),
                size as int,
                md,
            ) by {
                let qh = seq![flags_acc] + ubv + q;
                assert(pl@ + q =~= group_pl + qh);
                assert(spec_lz_decode(group_pl + qh, 0, 0, 0, Seq::empty(), size as int, md)
                    == spec_lz_decode(group_pl + qh, group_pl.len() as int, 0, 0, data@.take(
                    group_pos,
                ), size as int, md));
                let s = pl@ + q;
                assert(s == group_pl + qh);
                assert(s[group_pl.len() as int] == flags_acc);
                assert(data@.take(group_pos).len() == group_pos < size);
                assert(spec_lz_decode(s, group_pl.len() as int, 0, 0, data@.take(group_pos),
                    size as int, md) == spec_lz_decode(s, group_pl.len() as int + 1, flags_acc, 8,
                    data@.take(group_pos), size as int, md));
                assert(s =~= group_pl + (seq![flags_acc] + ubv + q));
                assert(spec_lz_decode(group_pl + (seq![flags_acc] + ubv + q),
                    group_pl.len() as int + 1, flags_acc, 8, data@.take(group_pos), size as int, md)
                    == spec_lz_decode(group_pl + (seq![flags_acc] + ubv + q), group_pl.len() as int + 1
                    + ubv.len(), flags_acc, (8 - mseq.len()) as nat, data@.take(pos as int),
                    size as int, md));
                assert(pl@.len() == group_pl.len() + 1 + ubv.len());
                if units == 8 {
                    lemma_lz_flags_done(s, pl@.len() as int, flags_acc, 0, data@.take(pos as int),
                        size as int, md);
                } else {
                    assert(pos == size);
                    assert(data@.take(pos as int).len() >= size);
                    assert(spec_lz_decode(s, group_pl.len() as int + 1 + ubv.len(), flags_acc, (8
                        - mseq.len()) as nat, data@.take(pos as int), size as int, md) == Ok::<
                        Seq<u8>,
                        CodecError,
                    >(data@.take(pos as int)));
                    assert(spec_lz_decode(s, pl@.len() as int, 0, 0, data@.take(pos as int),
                        size as int, md) == Ok::<Seq<u8>, CodecError>(data@.take(pos as int)));
                }
            }
        }
    }
    let ghost plv = pl@;
    let mut out = make_header(LZ77_TAG, size);
    let ghost h = out@;
    out.append(&mut pl);
    proof {
        assert(plv + Seq::<u8>::empty() =~= plv);
        assert(data@.take(size as int) =~= data@);
        assert(spec_lz_decode(plv + Seq::<u8>::empty(), 0, 0, 0, Seq::empty(), size as int, 1)
            == spec_lz_decode(plv + Seq::<u8>::empty(), plv.len() as int, 0, 0, data@.take(
            size as int,
        ), size as int, 1));
        assert(spec_lz_decode(plv, plv.len() as int, 0, 0, data@, size as int, 1) == Ok::<
            Seq<u8>,
            CodecError,
        >(data@));
        if vram_safe {
            assert(spec_lz_decode(plv + Seq::<u8>::empty(), 0, 0, 0, Seq::empty(), size as int, 3)
                == spec_lz_decode(plv + Seq::<u8>::empty(), plv.len() as int, 0, 0, data@.take(
                size as int,
            ), size as int, 3));
            assert(spec_lz_decode(plv, plv.len() as int, 0, 0, data@, size as int, 3) == Ok::<
                Seq<u8>,
                CodecError,
            >(data@));
        }
        lemma_header_size(LZ77_TAG, size as int, plv);
        assert(out@ == h + plv);
        assert(out@.skip(4) =~= plv);
        assert(spec_lz_payload(data@, size as int, vram_safe) =~= Seq::<u8>::empty());
        assert(plv + Seq::<u8>::empty() =~= plv);
        assert(plv == spec_lz_payload(data@, 0, vram_safe));
    }
    Ok(out)
}

/// The two packed bytes of a match unit decode back to the distance and
/// length they were built from, and replaying the match extends the decoded
/// prefix.
proof fn lemma_lz_copy_helper(
    data: Seq<u8>,
    pos: int,
    dist: int,
    len: int,
    b0: u8,
    b1: u8,
    size: int,
)
    requires
        size == data.len(),
        0 <= pos < size,
        3 <= len <= 18,
        pos + len <= size,
        1 <= dist <= pos,
        dist <= 4096,
        b0 == (len - 3) * 16 + (dist - 1) / 0x100,
        b1 == (dist - 1) % 0x100,
        forall|j: int| 0 <= j < len ==> #[trigger] data[pos + j] == data[pos + j - dist],
    ensures
        (b0 % 16) as int * 0x100 + b1 + 1 == dist,
        (b0 / 16) as int + 3 == len,
        spec_lz_copy(data.take(pos), dist, len) == data.take(pos + len),
{
    let hi = (dist - 1) / 0x100;
    let lo = (dist - 1) % 0x100;
    assert(0 <= hi < 16);
    assert(0 <= lo < 0x100);
    assert(b0 as int == (len - 3) * 16 + hi);
    assert((b0 / 16) as int == len - 3 && (b0 % 16) as int == hi) by (nonlinear_arith)
        requires
            b0 as int == (len - 3) * 16 + hi,
            0 <= hi < 16,
            3 <= len <= 18,
    ;
    lemma_fundamental_div_mod(dist - 1, 0x100);
    lemma_lz_copy_matches(data, pos, dist, len);
}

} // verus!
