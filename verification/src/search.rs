//! Pure helpers behind the text-encoding search tools: successive
//! differences of a value series, fixed-width little- and big-endian reads,
//! byte-plane splitting, and delta-window matching.  A text hidden under an
//! unknown character encoding keeps the differences between neighbouring
//! code points, so the tools difference both the needle and the haystack and
//! look for the needle's difference pattern.

use vstd::prelude::*;

verus! {

use vstd::wrapping::i64_specs;

/// The successive differences of `buf`: element `i` is element `i + 1` of
/// the input minus element `i`, with wraparound.  One shorter than the
/// input; empty when the input has no two elements.
pub fn delta(buf: &Vec<i64>) -> (r: Vec<i64>)
    ensures
        r@.len() == (if buf@.len() == 0 { 0int } else { buf@.len() - 1 }),
        forall|i: int|
            0 <= i < r@.len() ==> r@[i] == i64_specs::wrapping_sub(buf@[i + 1], buf@[i]),
{
    let mut r: Vec<i64> = Vec::new();
    if buf.len() == 0 {
        return r;
    }
    let len = buf.len();
    let mut i: usize = 0;
    while i + 1 < len
        invariant
            len == buf@.len(),
            i + 1 <= len,
            len >= 1,
            r@.len() == i,
            forall|t: int|
                0 <= t < i ==> r@[t] == i64_specs::wrapping_sub(buf@[t + 1], buf@[t]),
        decreases buf@.len() - i,
    {
        r.push(buf[i + 1].wrapping_sub(buf[i]));
        i += 1;
    }
    r
}

/// The successive differences of a byte buffer, each wrapped modulo 256:
/// element `i` is byte `i + 1` minus byte `i` of the input, as the byte
/// subtraction of the machine computes it.  One shorter than the input;
/// empty when the input has no two bytes.  Two buffers whose bytes differ
/// only by a constant shift modulo 256 have equal difference series, which
/// is what lets a text be found under an unknown single-byte encoding even
/// where its code points straddle the wraparound.
pub fn byte_deltas(data: &Vec<u8>) -> (r: Vec<i64>)
    ensures
        r@.len() == (if data@.len() == 0 { 0int } else { data@.len() - 1 }),
        forall|i: int| 0 <= i < r@.len() ==> r@[i] == (data@[i + 1] - data@[i]) % 0x100,
{
    let mut r: Vec<i64> = Vec::new();
    if data.len() == 0 {
        return r;
    }
    let len = data.len();
    let mut i: usize = 0;
    while i + 1 < len
        invariant
            len == data@.len(),
            i + 1 <= len,
            len >= 1,
            r@.len() == i,
            forall|t: int| 0 <= t < i ==> r@[t] == (data@[t + 1] - data@[t]) % 0x100,
        decreases data@.len() - i,
    {
        let v: i64 = ((data[i + 1] as i64) + 0x100 - (data[i] as i64)) % 0x100;
        proof {
            vstd::arithmetic::div_mod::lemma_mod_add_multiples_vanish(
                data@[i + 1] - data@[i as int],
                0x100,
            );
        }
        r.push(v);
        i += 1;
    }
    r
}

/// The halfword at element index `i` of `d`, under the given byte order.
pub open spec fn spec_u16_at(d: Seq<u8>, i: int, big_endian: bool) -> int {
    if big_endian {
        d[2 * i] * 0x100 + d[2 * i + 1]
    } else {
        d[2 * i] + 0x100 * d[2 * i + 1]
    }
}

/// Reads `data` as 16-bit values of the given byte order; a trailing odd
/// byte is dropped.
pub fn read_u16_values(data: &Vec<u8>, big_endian: bool) -> (r: Vec<i64>)
    ensures
        r@.len() == data@.len() / 2,
        forall|i: int|
            0 <= i < r@.len() ==> r@[i] == spec_u16_at(data@, i, big_endian),
{
    let mut r: Vec<i64> = Vec::new();
    let dlen = data.len();
    let count = dlen / 2;
    let mut i: usize = 0;
    while i < count
        invariant
            dlen == data@.len(),
            i <= count,
            count == data@.len() / 2,
            r@.len() == i,
            forall|t: int| 0 <= t < i ==> r@[t] == spec_u16_at(data@, t, big_endian),
        decreases count - i,
    {
        let a = data[2 * i] as i64;
        let b = data[2 * i + 1] as i64;
        let v = if big_endian {
            a * 0x100 + b
        } else {
            a + 0x100 * b
        };
        r.push(v);
        i += 1;
    }
    r
}

/// The word at element index `i` of `d`, under the given byte order.
pub open spec fn spec_u32_at(d: Seq<u8>, i: int, big_endian: bool) -> int {
    if big_endian {
        d[4 * i] * 0x100_0000 + d[4 * i + 1] * 0x1_0000 + d[4 * i + 2] * 0x100 + d[4 * i + 3]
    } else {
        d[4 * i] + d[4 * i + 1] * 0x100 + d[4 * i + 2] * 0x1_0000 + d[4 * i + 3] * 0x100_0000
    }
}

/// Reads `data` as 32-bit values of the given byte order; trailing bytes
/// short of a whole word are dropped.
pub fn read_u32_values(data: &Vec<u8>, big_endian: bool) -> (r: Vec<i64>)
    ensures
        r@.len() == data@.len() / 4,
        forall|i: int|
            0 <= i < r@.len() ==> r@[i] == spec_u32_at(data@, i, big_endian),
{
    let mut r: Vec<i64> = Vec::new();
    let dlen = data.len();
    let count = dlen / 4;
    let mut i: usize = 0;
    while i < count
        invariant
            dlen == data@.len(),
            i <= count,
            count == data@.len() / 4,
            r@.len() == i,
            forall|t: int| 0 <= t < i ==> r@[t] == spec_u32_at(data@, t, big_endian),
        decreases count - i,
    {
        let a = data[4 * i] as i64;
        let b = data[4 * i + 1] as i64;
        let c = data[4 * i + 2] as i64;
        let d = data[4 * i + 3] as i64;
        let v = if big_endian {
            a * 0x100_0000 + b * 0x1_0000 + c * 0x100 + d
        } else {
            a + b * 0x100 + c * 0x1_0000 + d * 0x100_0000
        };
        r.push(v);
        i += 1;
    }
    r
}

/// The first byte of every two-byte chunk of `data`.
pub fn odd_bytes(data: &Vec<u8>) -> (r: Vec<u8>)
    ensures
        r@.len() == (data@.len() + 1) / 2,
        forall|i: int| 0 <= i < r@.len() ==> r@[i] == data@[2 * i],
{
    let mut r: Vec<u8> = Vec::new();
    let dlen = data.len();
    let count = dlen / 2 + dlen % 2;
    let mut i: usize = 0;
    while i < count
        invariant
            dlen == data@.len(),
            i <= count,
            count == (data@.len() + 1) / 2,
            r@.len() == i,
            forall|t: int| 0 <= t < i ==> r@[t] == data@[2 * t],
        decreases count - i,
    {
        r.push(data[2 * i]);
        i += 1;
    }
    r
}

/// The second byte of every two-byte chunk of `data`; a chunk with no
/// second byte contributes zero.
pub fn even_bytes(data: &Vec<u8>) -> (r: Vec<u8>)
    ensures
        r@.len() == (data@.len() + 1) / 2,
        forall|i: int|
            0 <= i < r@.len() ==> r@[i] == (if 2 * i + 1 < data@.len() {
                data@[2 * i + 1]
            } else {
                0u8
            }),
{
    let mut r: Vec<u8> = Vec::new();
    let dlen = data.len();
    let count = dlen / 2 + dlen % 2;
    let mut i: usize = 0;
    while i < count
        invariant
            dlen == data@.len(),
            i <= count,
            count == (data@.len() + 1) / 2,
            r@.len() == i,
            forall|t: int|
                0 <= t < i ==> r@[t] == (if 2 * t + 1 < data@.len() {
                    data@[2 * t + 1]
                } else {
                    0u8
                }),
        decreases count - i,
    {
        let v = if 2 * i + 1 < data.len() {
            data[2 * i + 1]
        } else {
            0
        };
        r.push(v);
        i += 1;
    }
    r
}

/// Whether the needle stands in the haystack at the given offset.
pub open spec fn spec_matches_at(h: Seq<i64>, n: Seq<i64>, off: int) -> bool {
    &&& 0 <= off
    &&& off + n.len() <= h.len()
    &&& forall|j: int| 0 <= j < n.len() ==> h[off + j] == n[j]
}

/// Every offset at which the needle's series stands in the haystack's, in
/// increasing order: an offset is listed if and only if the needle matches
/// there.
pub fn find_delta_matches(haystack: &Vec<i64>, needle: &Vec<i64>) -> (r: Vec<usize>)
    requires
        needle@.len() >= 1,
    ensures
        forall|t: int| 0 <= t < r@.len() ==> spec_matches_at(haystack@, needle@, r@[t] as int),
        forall|off: int|
            0 <= off <= haystack@.len() - needle@.len() && spec_matches_at(haystack@, needle@, off)
                ==> r@.contains(off as usize),
        forall|a: int, b: int| 0 <= a < b < r@.len() ==> r@[a] < r@[b],
{
    let mut r: Vec<usize> = Vec::new();
    if needle.len() > haystack.len() {
        return r;
    }
    let hlen = haystack.len();
    let nlen = needle.len();
    let last = hlen - nlen;
    let mut off: usize = 0;
    while off <= last
        invariant
            hlen == haystack@.len(),
            nlen == needle@.len(),
            needle@.len() >= 1,
            last == haystack@.len() - needle@.len(),
            off <= last + 1,
            forall|t: int| 0 <= t < r@.len() ==> spec_matches_at(haystack@, needle@, r@[t] as int),
            forall|o: int|
                0 <= o < off && spec_matches_at(haystack@, needle@, o) ==> r@.contains(o as usize),
            forall|t: int| 0 <= t < r@.len() ==> r@[t] < off,
            forall|a: int, b: int| 0 <= a < b < r@.len() ==> r@[a] < r@[b],
        decreases last + 1 - off,
    {
        let mut j: usize = 0;
        let mut ok = true;
        while j < nlen
            invariant
                hlen == haystack@.len(),
                nlen == needle@.len(),
                off + nlen <= hlen,
                j <= nlen,
                ok <==> (forall|t: int| 0 <= t < j ==> haystack@[off + t] == needle@[t]),
            decreases needle@.len() - j,
        {
            if haystack[off + j] != needle[j] {
                ok = false;
            }
            j += 1;
        }
        let ghost old_r = r@;
        if ok {
            r.push(off);
        }
        off += 1;
        proof {
            if ok {
                assert(spec_matches_at(haystack@, needle@, off - 1));
                assert(r@ == old_r.push((off - 1) as usize));
                assert forall|o: int|
                    0 <= o < off && spec_matches_at(haystack@, needle@, o) implies r@.contains(
                    o as usize,
                ) by {
                    if o < off - 1 {
                        assert(old_r.contains(o as usize));
                        let t = choose|t: int| 0 <= t < old_r.len() && old_r[t] == o as usize;
                        assert(r@[t] == o as usize);
                    } else {
                        assert(r@[r@.len() - 1] == o as usize);
                    }
                }
            } else {
                assert(!spec_matches_at(haystack@, needle@, off - 1));
            }
        }
    }
    r
}

/// The candidate code points of the 26 lower-case letters, derived from the
/// byte found where the needle's first letter stands: candidate `i` is that
/// byte shifted so that the needle's first letter maps to it, plus `i`,
/// with wraparound.
pub fn letter_candidates(found: u8, first_letter: u8) -> (r: Vec<u8>)
    ensures
        r@.len() == 26,
        forall|i: int|
            0 <= i < 26 ==> r@[i] as int == (found - first_letter + 0x61 + i) % 0x100,
{
    let mut r: Vec<u8> = Vec::new();
    let mut i: usize = 0;
    let base: u16 = found as u16 + 0x200 + 0x61 - first_letter as u16;
    while i < 26
        invariant
            i <= 26,
            r@.len() == i,
            base == found as int + 0x200 + 0x61 - first_letter,
            forall|t: int| 0 <= t < i ==> r@[t] as int == (found - first_letter + 0x61 + t) % 0x100,
        decreases 26 - i,
    {
        let v = ((base + i as u16) % 0x100) as u8;
        proof {
            assert(v as int == (found - first_letter + 0x61 + i) % 0x100) by {
                vstd::arithmetic::div_mod::lemma_mod_add_multiples_vanish(
                    found - first_letter + 0x61 + i,
                    0x100,
                );
                assert(base + i == (found - first_letter + 0x61 + i) + 2 * 0x100);
                vstd::arithmetic::div_mod::lemma_mod_add_multiples_vanish(
                    found - first_letter + 0x61 + i + 0x100,
                    0x100,
                );
            }
        }
        r.push(v);
        i += 1;
    }
    r
}

} // verus!
