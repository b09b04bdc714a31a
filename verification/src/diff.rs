//! The delta filters: reversible byte-wise and halfword-wise differencing.
//! The first element is stored verbatim and every later element is stored as
//! the difference to its predecessor, with wraparound at the element width.
//! Halfwords are assembled and stored little endian.

use vstd::prelude::*;

verus! {

use vstd::arithmetic::div_mod::lemma_add_mod_noop;
use vstd::arithmetic::div_mod::lemma_fundamental_div_mod;
use vstd::arithmetic::div_mod::lemma_small_mod;
use crate::CodecError;
use crate::header::spec_header;
use crate::header::spec_header_size;
use crate::header::lemma_header_size;
use crate::header::make_header;
use crate::header::read_header_size;

/// Format tag of a byte-wise delta-filtered stream.
pub const DIFF8_TAG: u8 = 0x81;

/// Format tag of a halfword-wise delta-filtered stream.
pub const DIFF16_TAG: u8 = 0x82;

/// The byte-wise delta series of `d`: element 0 verbatim, then successive
/// differences modulo 256.
pub open spec fn spec_diff8(d: Seq<u8>) -> Seq<u8> {
    Seq::new(d.len(), |i: int| if i == 0 { d[0] } else { (((d[i] - d[i - 1]) % 0x100) as u8) })
}

/// The running sum of the first `i + 1` elements of `p`.
pub open spec fn spec_psum8(p: Seq<u8>, i: int) -> int
    recommends
        0 <= i < p.len(),
    decreases i,
{
    if i <= 0 {
        p[0] as int
    } else {
        p[i] + spec_psum8(p, i - 1)
    }
}

/// The cumulative sum that undoes `spec_diff8`.
pub open spec fn spec_unfilter8(p: Seq<u8>) -> Seq<u8> {
    Seq::new(p.len(), |i: int| ((spec_psum8(p, i) % 0x100) as u8))
}

/// What decoding a byte-wise delta-filtered stream yields: the cumulative
/// sums of the first `size` payload bytes, or the error the stream deserves.
pub open spec fn spec_unfilter_diff8(wire: Seq<u8>) -> Result<Seq<u8>, CodecError> {
    if wire.len() < 4 {
        Err(CodecError::UnexpectedEof)
    } else if wire[0] != DIFF8_TAG {
        Err(CodecError::InvalidHeader)
    } else {
        let size = spec_header_size(wire);
        if wire.len() - 4 < size {
            Err(CodecError::UnexpectedEof)
        } else {
            Ok(spec_unfilter8(wire.subrange(4, 4 + size)))
        }
    }
}

/// Summing the delta series back up restores the original bytes.
pub proof fn lemma_diff8_round_trip(d: Seq<u8>, i: int)
    requires
        0 <= i < d.len(),
    ensures
        spec_psum8(spec_diff8(d), i) % 0x100 == d[i],
    decreases i,
{
    if i > 0 {
        lemma_diff8_round_trip(d, i - 1);
        lemma_add_mod_noop(spec_psum8(spec_diff8(d), i - 1), (d[i] - d[i - 1]) % 0x100, 0x100);
        lemma_add_mod_noop(d[i - 1] as int, d[i] - d[i - 1], 0x100);
    }
}

/// Applies the byte-wise delta filter and wraps the result in a stream
/// header.  Decoding the result restores `data` exactly.
pub fn filter_diff8(data: &Vec<u8>) -> (r: Result<Vec<u8>, CodecError>)
    requires
        data@.len() <= 0xFF_FFFF,
    ensures
        crate::res_view(r) == Ok::<Seq<u8>, CodecError>(
            spec_header(DIFF8_TAG, data@.len() as int) + spec_diff8(data@),
        ),
        r is Ok ==> spec_unfilter_diff8(r.unwrap()@) == Ok::<Seq<u8>, CodecError>(data@),
{
    let mut out = make_header(DIFF8_TAG, data.len());
    let ghost h = out@;
    let mut i: usize = 0;
    let mut prev: u8 = 0;
    while i < data.len()
        invariant
            data@.len() <= 0xFF_FFFF,
            0 <= i <= data@.len(),
            out@ == h + spec_diff8(data@).take(i as int),
            h == spec_header(DIFF8_TAG, data@.len() as int),
            prev == (if i == 0 { 0u8 } else { data@[i - 1] }),
        decreases data@.len() - i,
    {
        let b = data[i];
        let v: u8 = if i == 0 {
            b
        } else {
            (((b as u16) + 0x100 - (prev as u16)) % 0x100) as u8
        };
        proof {
            assert(v == spec_diff8(data@)[i as int]);
            assert(spec_diff8(data@).take(i + 1) =~= spec_diff8(data@).take(i as int).push(v));
        }
        out.push(v);
        prev = b;
        i += 1;
    }
    proof {
        assert(spec_diff8(data@).take(data@.len() as int) =~= spec_diff8(data@));
        lemma_header_size(DIFF8_TAG, data@.len() as int, spec_diff8(data@));
        let w = h + spec_diff8(data@);
        assert(w.subrange(4, 4 + data@.len() as int) =~= spec_diff8(data@));
        assert forall|i: int| 0 <= i < data@.len() implies spec_unfilter8(spec_diff8(data@))[i]
            == data@[i] by {
            lemma_diff8_round_trip(data@, i);
        }
        assert(spec_unfilter8(spec_diff8(data@)) =~= data@);
    }
    Ok(out)
}

/// Undoes the byte-wise delta filter, checking the header and rejecting a
/// stream whose payload is shorter than the size it declares.
pub fn unfilter_diff8(wire: &Vec<u8>) -> (r: Result<Vec<u8>, CodecError>)
    ensures
        crate::res_view(r) == spec_unfilter_diff8(wire@),
{
    if wire.len() < 4 {
        return Err(CodecError::UnexpectedEof);
    }
    if wire[0] != DIFF8_TAG {
        return Err(CodecError::InvalidHeader);
    }
    let size = read_header_size(wire);
    if wire.len() - 4 < size {
        return Err(CodecError::UnexpectedEof);
    }
    let ghost p = wire@.subrange(4, 4 + size as int);
    let mut out: Vec<u8> = Vec::new();
    let mut i: usize = 0;
    let mut prev: u8 = 0;
    while i < size
        invariant
            size <= 0xFF_FFFF,
            wire@.len() >= 4 + size,
            p == wire@.subrange(4, 4 + size as int),
            0 <= i <= size,
            out@ == spec_unfilter8(p).take(i as int),
            prev == (if i == 0 { 0u8 } else { spec_unfilter8(p)[i - 1] }),
        decreases size - i,
    {
        let b = wire[4 + i];
        let v: u8 = (((prev as u16) + (b as u16)) % 0x100) as u8;
        proof {
            assert(p[i as int] == b);
            if i > 0 {
                assert(prev == spec_psum8(p, i - 1) % 0x100);
                lemma_add_mod_noop(spec_psum8(p, i - 1), b as int, 0x100);
            }
            assert(v == spec_unfilter8(p)[i as int]);
            assert(spec_unfilter8(p).take(i + 1) =~= spec_unfilter8(p).take(i as int).push(v));
        }
        out.push(v);
        prev = v;
        i += 1;
    }
    proof {
        assert(spec_unfilter8(p).take(size as int) =~= spec_unfilter8(p));
    }
    Ok(out)
}

/// The halfword at element index `i` of a byte buffer, assembled little
/// endian.
pub open spec fn spec_hw(d: Seq<u8>, i: int) -> int
    recommends
        0 <= i,
        2 * i + 1 < d.len(),
{
    d[2 * i] + 0x100 * d[2 * i + 1]
}

/// The halfword-wise delta series of `d`: element 0 verbatim, then
/// successive differences modulo 2^16, each stored little endian.
pub open spec fn spec_diff16(d: Seq<u8>) -> Seq<u8>
    recommends
        d.len() % 2 == 0,
{
    Seq::new(
        d.len(),
        |j: int|
            {
                let i = j / 2;
                let v = if i == 0 {
                    spec_hw(d, 0)
                } else {
                    (spec_hw(d, i) - spec_hw(d, i - 1)) % 0x1_0000
                };
                if j % 2 == 0 {
                    (v % 0x100) as u8
                } else {
                    ((v / 0x100) % 0x100) as u8
                }
            },
    )
}

/// The running sum of the first `i + 1` halfwords of `p`.
pub open spec fn spec_psum16(p: Seq<u8>, i: int) -> int
    recommends
        0 <= i,
        2 * i + 1 < p.len(),
    decreases i,
{
    if i <= 0 {
        spec_hw(p, 0)
    } else {
        spec_hw(p, i) + spec_psum16(p, i - 1)
    }
}

/// The cumulative halfword sum that undoes `spec_diff16`.
pub open spec fn spec_unfilter16(p: Seq<u8>) -> Seq<u8>
    recommends
        p.len() % 2 == 0,
{
    Seq::new(
        p.len(),
        |j: int|
            {
                let v = spec_psum16(p, j / 2) % 0x1_0000;
                if j % 2 == 0 {
                    (v % 0x100) as u8
                } else {
                    ((v / 0x100) % 0x100) as u8
                }
            },
    )
}

/// What decoding a halfword-wise delta-filtered stream yields.  A declared
/// size that is not a whole number of halfwords is rejected.
pub open spec fn spec_unfilter_diff16(wire: Seq<u8>) -> Result<Seq<u8>, CodecError> {
    if wire.len() < 4 {
        Err(CodecError::UnexpectedEof)
    } else if wire[0] != DIFF16_TAG {
        Err(CodecError::InvalidHeader)
    } else {
        let size = spec_header_size(wire);
        if size % 2 != 0 {
            Err(CodecError::InvalidLength)
        } else if wire.len() - 4 < size {
            Err(CodecError::UnexpectedEof)
        } else {
            Ok(spec_unfilter16(wire.subrange(4, 4 + size)))
        }
    }
}

/// A halfword is rebuilt from its little-endian bytes.
proof fn lemma_hw_split(v: int)
    requires
        0 <= v < 0x1_0000,
    ensures
        v % 0x100 + 0x100 * ((v / 0x100) % 0x100) == v,
{
    lemma_fundamental_div_mod(v, 0x100);
    lemma_small_mod((v / 0x100) as nat, 0x100 as nat);
}

/// Summing the halfword delta series back up restores the original
/// halfwords.
pub proof fn lemma_diff16_round_trip(d: Seq<u8>, i: int)
    requires
        0 <= i,
        2 * i + 1 < d.len(),
        d.len() % 2 == 0,
    ensures
        spec_psum16(spec_diff16(d), i) % 0x1_0000 == spec_hw(d, i),
    decreases i,
{
    let p = spec_diff16(d);
    assert(spec_hw(p, i) == if i == 0 {
        spec_hw(d, 0)
    } else {
        (spec_hw(d, i) - spec_hw(d, i - 1)) % 0x1_0000
    }) by {
        let v = if i == 0 {
            spec_hw(d, 0)
        } else {
            (spec_hw(d, i) - spec_hw(d, i - 1)) % 0x1_0000
        };
        assert(p[2 * i] == (v % 0x100) as u8);
        assert(p[2 * i + 1] == ((v / 0x100) % 0x100) as u8);
        assert(0 <= v < 0x1_0000);
        lemma_hw_split(v);
    }
    if i > 0 {
        lemma_diff16_round_trip(d, i - 1);
        lemma_add_mod_noop(spec_psum16(p, i - 1), (spec_hw(d, i) - spec_hw(d, i - 1)) % 0x1_0000,
            0x1_0000);
        lemma_add_mod_noop(spec_hw(d, i - 1), spec_hw(d, i) - spec_hw(d, i - 1), 0x1_0000);
        assert(0 <= spec_hw(d, i) < 0x1_0000);
    } else {
        assert(0 <= spec_hw(d, 0) < 0x1_0000);
    }
}

/// Applies the halfword-wise delta filter and wraps the result in a stream
/// header.  An input that is not a whole number of halfwords is rejected;
/// decoding a successful result restores `data` exactly.
pub fn filter_diff16(data: &Vec<u8>) -> (r: Result<Vec<u8>, CodecError>)
    requires
        data@.len() <= 0xFF_FFFF,
    ensures
        crate::res_view(r) == (if data@.len() % 2 != 0 {
            Err::<Seq<u8>, CodecError>(CodecError::InvalidLength)
        } else {
            Ok::<Seq<u8>, CodecError>(
                spec_header(DIFF16_TAG, data@.len() as int) + spec_diff16(data@),
            )
        }),
        r is Ok ==> spec_unfilter_diff16(r.unwrap()@) == Ok::<Seq<u8>, CodecError>(data@),
{
    if data.len() % 2 != 0 {
        return Err(CodecError::InvalidLength);
    }
    let mut out = make_header(DIFF16_TAG, data.len());
    let ghost h = out@;
    let ghost df = spec_diff16(data@);
    let mut i: usize = 0;
    let mut prev: u32 = 0;
    while 2 * i < data.len()
        invariant
            data@.len() <= 0xFF_FFFF,
            data@.len() % 2 == 0,
            0 <= 2 * i <= data@.len(),
            out@ == h + df.take(2 * i),
            df == spec_diff16(data@),
            h == spec_header(DIFF16_TAG, data@.len() as int),
            prev == (if i == 0 { 0 } else { spec_hw(data@, i - 1) }),
        decreases data@.len() - 2 * i,
    {
        let lo = data[2 * i];
        let hi = data[2 * i + 1];
        let hw: u32 = lo as u32 + 0x100 * (hi as u32);
        let v: u32 = if i == 0 {
            hw
        } else {
            (hw + 0x1_0000 - prev) % 0x1_0000
        };
        let b0: u8 = (v % 0x100) as u8;
        let b1: u8 = (v / 0x100) as u8;
        proof {
            assert(hw == spec_hw(data@, i as int));
            if i > 0 {
                assert(v == (spec_hw(data@, i as int) - spec_hw(data@, i - 1)) % 0x1_0000);
            }
            assert((2 * i) / 2 == i as int && (2 * i) % 2 == 0);
            assert((2 * i + 1) / 2 == i as int && (2 * i + 1) % 2 == 1);
            assert(b0 == df[2 * i] && b1 == df[2 * i + 1]);
            assert(df.take(2 * i + 2) =~= df.take(2 * i).push(b0).push(b1));
        }
        out.push(b0);
        out.push(b1);
        prev = hw;
        i += 1;
    }
    proof {
        assert(df.take(data@.len() as int) =~= df);
        lemma_header_size(DIFF16_TAG, data@.len() as int, df);
        let w = h + df;
        assert(w.subrange(4, 4 + data@.len() as int) =~= df);
        assert forall|j: int| 0 <= j < data@.len() implies spec_unfilter16(df)[j] == data@[j] by {
            lemma_diff16_round_trip(data@, j / 2);
            let v = spec_psum16(df, j / 2) % 0x1_0000;
            assert(v == spec_hw(data@, j / 2));
            if j % 2 == 0 {
                assert(data@[j] + 0x100 * data@[j + 1] == v);
            } else {
                assert(data@[j - 1] + 0x100 * data@[j] == v);
            }
        }
        assert(spec_unfilter16(df) =~= data@);
    }
    Ok(out)
}

/// Undoes the halfword-wise delta filter, checking the header, the declared
/// size's alignment, and the payload length.
pub fn unfilter_diff16(wire: &Vec<u8>) -> (r: Result<Vec<u8>, CodecError>)
    ensures
        crate::res_view(r) == spec_unfilter_diff16(wire@),
{
    if wire.len() < 4 {
        return Err(CodecError::UnexpectedEof);
    }
    if wire[0] != DIFF16_TAG {
        return Err(CodecError::InvalidHeader);
    }
    let size = read_header_size(wire);
    if size % 2 != 0 {
        return Err(CodecError::InvalidLength);
    }
    if wire.len() - 4 < size {
        return Err(CodecError::UnexpectedEof);
    }
    let ghost p = wire@.subrange(4, 4 + size as int);
    let ghost uf = spec_unfilter16(p);
    let mut out: Vec<u8> = Vec::new();
    let mut i: usize = 0;
    let mut prev: u32 = 0;
    while 2 * i < size
        invariant
            size <= 0xFF_FFFF,
            size % 2 == 0,
            wire@.len() >= 4 + size,
            p == wire@.subrange(4, 4 + size as int),
            uf == spec_unfilter16(p),
            0 <= 2 * i <= size,
            out@ == uf.take(2 * i),
            prev == (if i == 0 { 0 } else { spec_psum16(p, i - 1) % 0x1_0000 }),
        decreases size - 2 * i,
    {
        let lo = wire[4 + 2 * i];
        let hi = wire[4 + 2 * i + 1];
        let hw: u32 = lo as u32 + 0x100 * (hi as u32);
        let v: u32 = (prev + hw) % 0x1_0000;
        let b0: u8 = (v % 0x100) as u8;
        let b1: u8 = (v / 0x100) as u8;
        proof {
            assert(p[2 * i] == lo && p[2 * i + 1] == hi);
            assert(hw == spec_hw(p, i as int));
            if i > 0 {
                lemma_add_mod_noop(spec_psum16(p, i - 1), spec_hw(p, i as int), 0x1_0000);
            }
            assert(v == spec_psum16(p, i as int) % 0x1_0000);
            assert((2 * i) / 2 == i as int && (2 * i) % 2 == 0);
            assert((2 * i + 1) / 2 == i as int && (2 * i + 1) % 2 == 1);
            assert(b0 == uf[2 * i] && b1 == uf[2 * i + 1]);
            assert(uf.take(2 * i + 2) =~= uf.take(2 * i).push(b0).push(b1));
        }
        out.push(b0);
        out.push(b1);
        prev = v;
        i += 1;
    }
    proof {
        assert(uf.take(size as int) =~= uf);
    }
    Ok(out)
}

} // verus!
