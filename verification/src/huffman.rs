//! The canonical-tree entropy coder.  The payload holds a serialized tree
//! table, then the symbols' codes through the bitstream, most significant
//! bit first.  The table starts with the number of internal-node records;
//! each record is three bytes: a flag byte whose two low bits say whether
//! the zero-child and the one-child are leaves, then one byte per child
//! holding either the leaf's symbol or the child record's relative offset,
//! always forward: the child record stands that many records after its
//! parent.  The root is record 0, and a zero offset is corruption, so every
//! walk is bounded by the table size.  Symbols are 4 or 8 bits wide; with
//! 4-bit symbols each output byte is the high nibble's symbol followed by
//! the low nibble's.  The prose of the format fixes node records with
//! relative child offsets but no bit layout; the count prefix and the
//! three-byte records are this crate's serialization of it, so a table of
//! other firmware tooling must be transcoded at the boundary.

use vstd::prelude::*;

verus! {

use crate::CodecError;
use crate::bits::bit_at;
use crate::bits::p2u8;
use crate::bits::lemma_shift_up;
use crate::bits::lemma_shift_up_many;
use crate::bits::lemma_new_low_bit;
use vstd::arithmetic::div_mod::lemma_fundamental_div_mod;
use crate::header::spec_header_size;
use crate::header::read_header_size;
use crate::header::make_header;
use vstd::arithmetic::power2::pow2;
use vstd::arithmetic::power2::lemma_pow2_unfold;
use vstd::arithmetic::power2::lemma_pow2_adds;
use vstd::arithmetic::power2::lemma_pow2_strictly_increases;
use vstd::arithmetic::power2::lemma2_to64;

/// Format tag of a tree-entropy stream over 4-bit symbols.
pub const HUFF4_TAG: u8 = 0x24;

/// Format tag of a tree-entropy stream over 8-bit symbols.
pub const HUFF8_TAG: u8 = 0x28;

/// Bit `b` of the bitstream that starts at payload byte `bstart`.
pub open spec fn spec_huff_bit(p: Seq<u8>, bstart: int, b: int) -> bool {
    bit_at(p[bstart + b / 8] as nat, (7 - b % 8) as nat)
}

/// Walks the tree table from record `node`, consuming one bit per step,
/// until a leaf is hit: the leaf's symbol and the next unread bit position.
/// A child offset of zero, or one that reaches at or past the table's end,
/// is corruption; a bit read past the payload is starvation.
pub open spec fn spec_huff_walk(p: Seq<u8>, n: int, bstart: int, node: int, b: int) -> Result<
    (u8, int),
    CodecError,
>
    decreases n - node,
{
    if !(0 <= node < n) || 1 + 3 * n > p.len() {
        Err(CodecError::TreeCorruption)
    } else if b < 0 || bstart + b / 8 >= p.len() {
        Err(CodecError::UnexpectedEof)
    } else {
        let f = p[1 + 3 * node];
        let c = if !spec_huff_bit(p, bstart, b) {
            p[1 + 3 * node + 1]
        } else {
            p[1 + 3 * node + 2]
        };
        let leaf = if !spec_huff_bit(p, bstart, b) {
            f % 2 == 1
        } else {
            (f / 2) % 2 == 1
        };
        if leaf {
            Ok((c, b + 1))
        } else if c == 0 || node + c >= n {
            Err(CodecError::TreeCorruption)
        } else {
            spec_huff_walk(p, n, bstart, node + c, b + 1)
        }
    }
}

/// Decodes `remaining` more symbols, each by one walk from the root.
pub open spec fn spec_huff_run(
    p: Seq<u8>,
    n: int,
    bstart: int,
    b: int,
    remaining: nat,
    out: Seq<u8>,
) -> Result<Seq<u8>, CodecError>
    decreases remaining,
{
    if remaining == 0 {
        Ok(out)
    } else {
        match spec_huff_walk(p, n, bstart, 0, b) {
            Err(e) => Err(e),
            Ok(sc) => spec_huff_run(p, n, bstart, sc.1, (remaining - 1) as nat, out.push(sc.0)),
        }
    }
}

/// Reassembles bytes from a sequence of 4-bit symbols, high nibble first.
pub open spec fn spec_nibble_bytes(s: Seq<u8>) -> Seq<u8> {
    Seq::new(s.len() / 2, |t: int| (((s[2 * t] % 16) * 16 + (s[2 * t + 1] % 16)) as u8))
}

/// Splits bytes into their 4-bit symbols, high nibble first.
spec fn spec_nibbles_of(d: Seq<u8>) -> Seq<u8> {
    Seq::new(
        2 * d.len(),
        |j: int|
            if j % 2 == 0 {
                d[j / 2] / 16
            } else {
                d[j / 2] % 16
            },
    )
}

/// Whether following the bits of `path` through the table from record
/// `node` ends exactly at a leaf holding `sym`.
spec fn table_path(tbl: Seq<u8>, n: int, node: int, path: Seq<bool>, sym: u8) -> bool
    decreases path.len(),
{
    if path.len() == 0 {
        false
    } else if !(0 <= node < n) || 3 * n > tbl.len() {
        false
    } else {
        let f = tbl[3 * node];
        let c = if !path[0] {
            tbl[3 * node + 1]
        } else {
            tbl[3 * node + 2]
        };
        let leaf = if !path[0] {
            f % 2 == 1
        } else {
            (f / 2) % 2 == 1
        };
        if leaf {
            path.len() == 1 && c == sym
        } else {
            c != 0 && node + c < n && table_path(tbl, n, node + c, path.drop_first(), sym)
        }
    }
}

/// Whether following the bits of `path` through the table from record `a`
/// passes internal records only and ends at record `b`.
spec fn table_reaches(tbl: Seq<u8>, n: int, a: int, path: Seq<bool>, b: int) -> bool
    decreases path.len(),
{
    if path.len() == 0 {
        a == b && 0 <= b < n
    } else if !(0 <= a < n) || 3 * n > tbl.len() {
        false
    } else {
        let f = tbl[3 * a];
        let c = if !path[0] {
            tbl[3 * a + 1]
        } else {
            tbl[3 * a + 2]
        };
        let leaf = if !path[0] {
            f % 2 == 1
        } else {
            (f / 2) % 2 == 1
        };
        !leaf && c != 0 && a + c < n && table_reaches(tbl, n, a + c, path.drop_first(), b)
    }
}

/// A reach can be extended by one step to an internal child.
proof fn lemma_reaches_extend(tbl: Seq<u8>, n: int, a: int, path: Seq<bool>, b: int, bit: bool)
    requires
        table_reaches(tbl, n, a, path, b),
        3 * n <= tbl.len(),
        ({
            let f = tbl[3 * b];
            let c = if !bit {
                tbl[3 * b + 1]
            } else {
                tbl[3 * b + 2]
            };
            let leaf = if !bit {
                f % 2 == 1
            } else {
                (f / 2) % 2 == 1
            };
            !leaf && c != 0 && b + c < n
        }),
    ensures
        table_reaches(
            tbl,
            n,
            a,
            path.push(bit),
            b + (if !bit {
                tbl[3 * b + 1]
            } else {
                tbl[3 * b + 2]
            }),
        ),
    decreases path.len(),
{
    let cv = b + (if !bit {
        tbl[3 * b + 1]
    } else {
        tbl[3 * b + 2]
    });
    if path.len() == 0 {
        assert(path.push(bit)[0] == bit);
        assert(path.push(bit).drop_first() =~= Seq::<bool>::empty());
        assert(table_reaches(tbl, n, cv, Seq::<bool>::empty(), cv));
        assert(table_reaches(tbl, n, a, path.push(bit), cv));
    } else {
        assert(path.push(bit)[0] == path[0]);
        let f = tbl[3 * a];
        let c = if !path[0] {
            tbl[3 * a + 1]
        } else {
            tbl[3 * a + 2]
        };
        lemma_reaches_extend(tbl, n, a + c, path.drop_first(), b, bit);
        assert(path.push(bit).drop_first() =~= path.drop_first().push(bit));
        assert(table_reaches(tbl, n, a + c, path.push(bit).drop_first(), cv));
        assert(table_reaches(tbl, n, a, path.push(bit), cv));
    }
}

/// A reach followed by a path to a leaf is a path to that leaf.
proof fn lemma_reaches_then_path(
    tbl: Seq<u8>,
    n: int,
    a: int,
    pre: Seq<bool>,
    b: int,
    suf: Seq<bool>,
    sym: u8,
)
    requires
        table_reaches(tbl, n, a, pre, b),
        table_path(tbl, n, b, suf, sym),
    ensures
        table_path(tbl, n, a, pre + suf, sym),
    decreases pre.len(),
{
    if pre.len() == 0 {
        assert(pre + suf =~= suf);
    } else {
        let f = tbl[3 * a];
        let c = if !pre[0] {
            tbl[3 * a + 1]
        } else {
            tbl[3 * a + 2]
        };
        lemma_reaches_then_path(tbl, n, a + c, pre.drop_first(), b, suf, sym);
        assert((pre + suf)[0] == pre[0]);
        assert(suf.len() >= 1);
        assert((pre + suf).drop_first() =~= pre.drop_first() + suf);
        assert((pre + suf).len() >= 2);
    }
}

/// A walk whose bits follow a recorded path comes out at that path's leaf,
/// having consumed exactly the path's bits.
proof fn lemma_walk_follows_path(
    p: Seq<u8>,
    n: int,
    bstart: int,
    node: int,
    b: int,
    path: Seq<bool>,
    sym: u8,
)
    requires
        bstart == 1 + 3 * n,
        bstart <= p.len(),
        table_path(p.subrange(1, 1 + 3 * n), n, node, path, sym),
        0 <= b,
        b + path.len() <= 8 * (p.len() - bstart),
        forall|j: int|
            0 <= j < path.len() ==> #[trigger] spec_huff_bit(p, bstart, b + j) == path[j],
    ensures
        spec_huff_walk(p, n, bstart, node, b) == Ok::<(u8, int), CodecError>(
            (sym, b + path.len()),
        ),
    decreases path.len(),
{
    let tbl = p.subrange(1, 1 + 3 * n);
    assert(path.len() >= 1);
    assert(tbl[3 * node] == p[1 + 3 * node]);
    assert(tbl[3 * node + 1] == p[1 + 3 * node + 1]);
    assert(tbl[3 * node + 2] == p[1 + 3 * node + 2]);
    assert(bstart + b / 8 < p.len()) by {
        vstd::arithmetic::div_mod::lemma_fundamental_div_mod(b, 8);
        assert(b < 8 * (p.len() - bstart));
    }
    assert(spec_huff_bit(p, bstart, b + 0) == path[0]);
    assert(b + 0 == b);
    let f = tbl[3 * node];
    let c = if !path[0] {
        tbl[3 * node + 1]
    } else {
        tbl[3 * node + 2]
    };
    let leaf = if !path[0] {
        f % 2 == 1
    } else {
        (f / 2) % 2 == 1
    };
    if leaf {
        assert(path.len() == 1 && c == sym);
    } else {
        assert forall|j: int|
            0 <= j < path.drop_first().len() implies #[trigger] spec_huff_bit(
            p,
            bstart,
            (b + 1) + j,
        ) == path.drop_first()[j] by {
            assert(spec_huff_bit(p, bstart, b + (j + 1)) == path[j + 1]);
            assert((b + 1) + j == b + (j + 1));
        }
        lemma_walk_follows_path(p, n, bstart, node + c, b + 1, path.drop_first(), sym);
    }
}

/// The codes of a symbol sequence, laid end to end.
spec fn cat_codes(cs: Seq<Seq<bool>>) -> Seq<bool>
    decreases cs.len(),
{
    if cs.len() == 0 {
        Seq::empty()
    } else {
        cs[0] + cat_codes(cs.drop_first())
    }
}

/// One more code extends the concatenation at the back.
proof fn lemma_cat_codes_push(cs: Seq<Seq<bool>>, c: Seq<bool>)
    ensures
        cat_codes(cs.push(c)) == cat_codes(cs) + c,
    decreases cs.len(),
{
    if cs.len() == 0 {
        assert(cs.push(c)[0] == c);
        assert(cs.push(c).drop_first() =~= Seq::<Seq<bool>>::empty());
        assert(cat_codes(Seq::<Seq<bool>>::empty()) =~= Seq::<bool>::empty());
        assert(cat_codes(cs.push(c)) == c + cat_codes(Seq::<Seq<bool>>::empty()));
        assert(cat_codes(cs.push(c)) =~= cat_codes(cs) + c);
    } else {
        assert(cs.push(c).drop_first() =~= cs.drop_first().push(c));
        lemma_cat_codes_push(cs.drop_first(), c);
        assert(cs[0] + (cat_codes(cs.drop_first()) + c) =~= (cs[0] + cat_codes(cs.drop_first()))
            + c);
        assert(cs.push(c)[0] == cs[0]);
    }
}

/// Dropping the first code drops its bits off the front.
proof fn lemma_cat_codes_skip(cs: Seq<Seq<bool>>, idx: int)
    requires
        0 <= idx < cs.len(),
    ensures
        cat_codes(cs.skip(idx)) == cs[idx] + cat_codes(cs.skip(idx + 1)),
{
    assert(cs.skip(idx)[0] == cs[idx]);
    assert(cs.skip(idx).drop_first() =~= cs.skip(idx + 1));
}

/// Decoding symbol after symbol off a bitstream that spells their codes
/// restores the symbols.
proof fn lemma_run_decodes(
    p: Seq<u8>,
    n: int,
    bstart: int,
    syms: Seq<u8>,
    codes: Seq<Seq<bool>>,
    idx: int,
    b: int,
    out: Seq<u8>,
)
    requires
        bstart == 1 + 3 * n,
        bstart <= p.len(),
        0 <= idx <= syms.len(),
        codes.len() == syms.len(),
        forall|t: int|
            idx <= t < syms.len() ==> table_path(
                p.subrange(1, 1 + 3 * n),
                n,
                0,
                #[trigger] codes[t],
                syms[t],
            ) && codes[t].len() >= 1,
        0 <= b,
        b + cat_codes(codes.skip(idx)).len() <= 8 * (p.len() - bstart),
        forall|j: int|
            0 <= j < cat_codes(codes.skip(idx)).len() ==> #[trigger] spec_huff_bit(p, bstart, b + j)
                == cat_codes(codes.skip(idx))[j],
    ensures
        spec_huff_run(p, n, bstart, b, (syms.len() - idx) as nat, out) == Ok::<Seq<u8>, CodecError>(
            out + syms.skip(idx),
        ),
    decreases syms.len() - idx,
{
    if idx == syms.len() {
        assert(out + syms.skip(idx) =~= out);
    } else {
        let c = codes[idx];
        lemma_cat_codes_skip(codes, idx);
        let rest = cat_codes(codes.skip(idx + 1));
        assert(cat_codes(codes.skip(idx)) == c + rest);
        assert forall|j: int| 0 <= j < c.len() implies #[trigger] spec_huff_bit(p, bstart, b + j)
            == c[j] by {
            assert((c + rest)[j] == c[j]);
        }
        lemma_walk_follows_path(p, n, bstart, 0, b, c, syms[idx]);
        let b2 = b + c.len();
        assert forall|j: int| 0 <= j < rest.len() implies #[trigger] spec_huff_bit(
            p,
            bstart,
            b2 + j,
        ) == rest[j] by {
            assert(spec_huff_bit(p, bstart, b + (c.len() + j)) == (c + rest)[c.len() + j]);
            assert(b2 + j == b + (c.len() + j));
        }
        lemma_run_decodes(p, n, bstart, syms, codes, idx + 1, b2 as int, out.push(syms[idx]));
        assert(out.push(syms[idx]) + syms.skip(idx + 1) =~= out + syms.skip(idx));
    }
}

/// What decoding a whole tree-entropy stream yields.  A stream that
/// declares no output is complete after its header: no table and no payload
/// bit is read.
pub open spec fn spec_huff_stream(wire: Seq<u8>) -> Result<Seq<u8>, CodecError> {
    if wire.len() < 4 {
        Err(CodecError::UnexpectedEof)
    } else if wire[0] != HUFF4_TAG && wire[0] != HUFF8_TAG {
        Err(CodecError::InvalidHeader)
    } else {
        let size = spec_header_size(wire);
        if size == 0 {
            Ok(Seq::empty())
        } else {
            let p = wire.skip(4);
            if p.len() < 1 {
                Err(CodecError::UnexpectedEof)
            } else {
                let n = p[0] as int;
                if n == 0 {
                    Err(CodecError::TreeCorruption)
                } else if 1 + 3 * n > p.len() {
                    Err(CodecError::UnexpectedEof)
                } else {
                    let bstart = 1 + 3 * n;
                    if wire[0] == HUFF8_TAG {
                        spec_huff_run(p, n, bstart, 0, size as nat, Seq::empty())
                    } else {
                        match spec_huff_run(p, n, bstart, 0, (2 * size) as nat, Seq::empty()) {
                            Err(e) => Err(e),
                            Ok(syms) => Ok(spec_nibble_bytes(syms)),
                        }
                    }
                }
            }
        }
    }
}

/// Decodes a tree-entropy stream.  The result is exactly what the wire
/// format promises: the declared number of symbols walked out of the tree,
/// and with 4-bit symbols the nibbles repacked into bytes.
pub fn decompress_huffman(wire: &Vec<u8>) -> (r: Result<Vec<u8>, CodecError>)
    ensures
        crate::res_view(r) == spec_huff_stream(wire@),
{
    if wire.len() < 4 {
        return Err(CodecError::UnexpectedEof);
    }
    let tag = wire[0];
    if tag != HUFF4_TAG && tag != HUFF8_TAG {
        return Err(CodecError::InvalidHeader);
    }
    let size = read_header_size(wire);
    if size == 0 {
        return Ok(Vec::new());
    }
    let wlen = wire.len();
    let plen = wlen - 4;
    let ghost p = wire@.skip(4);
    if plen < 1 {
        return Err(CodecError::UnexpectedEof);
    }
    let n = wire[4] as usize;
    proof {
        assert(p[0] == wire@[4]);
    }
    if n == 0 {
        return Err(CodecError::TreeCorruption);
    }
    if 1 + 3 * n > plen {
        return Err(CodecError::UnexpectedEof);
    }
    let bstart = 1 + 3 * n;
    let total: usize = if tag == HUFF8_TAG {
        size
    } else {
        2 * size
    };
    let mut syms: Vec<u8> = Vec::new();
    let mut b: u64 = 0;
    let mut remaining = total;
    proof {
        assert(total <= 2 * 0xFF_FFFF);
    }
    while remaining > 0
        invariant
            wlen == wire@.len(),
            wlen == plen + 4,
            p == wire@.skip(4),
            p.len() == plen,
            wire@[0] == tag,
            tag == HUFF4_TAG || tag == HUFF8_TAG,
            size == spec_header_size(wire@),
            1 <= size <= 0xFF_FFFF,
            total == (if tag == HUFF8_TAG { size as int } else { 2 * size }),
            1 <= n <= 255,
            n == p[0],
            1 + 3 * n <= plen,
            bstart == 1 + 3 * n,
            remaining <= total,
            b <= (total - remaining) * (n as int),
            syms@.len() + remaining == total,
            spec_huff_run(p, n as int, bstart as int, 0, total as nat, Seq::empty())
                == spec_huff_run(
                p,
                n as int,
                bstart as int,
                b as int,
                remaining as nat,
                syms@,
            ),
        decreases remaining,
    {
        let mut node: usize = 0;
        let ghost b0 = b as int;
        let ghost prev_syms = syms@;
        proof {
            assert(b0 <= total * (n as int) && total * (n as int) <= 2 * 0xFF_FFFF * 255)
                by (nonlinear_arith)
                requires
                    b0 <= (total - remaining) * (n as int),
                    1 <= remaining <= total,
                    total <= 2 * 0xFF_FFFF,
                    1 <= n <= 255,
            ;
        }
        loop
            invariant_except_break
                node < n,
                b0 <= b,
                b - b0 <= node,
                syms@ == prev_syms,
                spec_huff_walk(p, n as int, bstart as int, 0, b0) == spec_huff_walk(
                    p,
                    n as int,
                    bstart as int,
                    node as int,
                    b as int,
                ),
            invariant
                wlen == wire@.len(),
                wlen == plen + 4,
                p == wire@.skip(4),
                p.len() == plen,
                wire@[0] == tag,
                tag == HUFF4_TAG || tag == HUFF8_TAG,
                size == spec_header_size(wire@),
                1 <= size <= 0xFF_FFFF,
                total == (if tag == HUFF8_TAG { size as int } else { 2 * size }),
                1 <= n <= 255,
                n == p[0],
                1 + 3 * n <= plen,
                bstart == 1 + 3 * n,
                1 <= remaining <= total,
                b0 <= 2 * 0xFF_FFFF * 255,
                syms@.len() + remaining == total || syms@.len() + remaining == total + 1,
                prev_syms.len() + remaining == total,
                spec_huff_run(p, n as int, bstart as int, 0, total as nat, Seq::empty())
                    == spec_huff_run(
                    p,
                    n as int,
                    bstart as int,
                    b0,
                    remaining as nat,
                    prev_syms,
                ),
            ensures
                b0 <= b,
                b - b0 <= n,
                syms@.len() == prev_syms.len() + 1,
                syms@ == prev_syms.push(syms@[prev_syms.len() as int]),
                spec_huff_walk(p, n as int, bstart as int, 0, b0) == Ok::<(u8, int), CodecError>(
                    (syms@[prev_syms.len() as int], b as int),
                ),
            decreases n - node,
        {
            if bstart as u64 + b / 8 >= plen as u64 {
                return Err(CodecError::UnexpectedEof);
            }
            let bidx = (b / 8) as usize;
            let byte = wire[4 + bstart + bidx];
            proof {
                assert(bidx == b as int / 8);
                assert(p[bstart + b as int / 8] == wire@[4 + bstart + b as int / 8]);
            }
            let bitv = (byte / p2u8(7 - (b % 8) as u8)) % 2 == 1;
            let f = wire[4 + 1 + 3 * node];
            let c = if !bitv {
                wire[4 + 1 + 3 * node + 1]
            } else {
                wire[4 + 1 + 3 * node + 2]
            };
            proof {
                assert(p[1 + 3 * node] == wire@[4 + 1 + 3 * node]);
                assert(p[1 + 3 * node + 1] == wire@[4 + 1 + 3 * node + 1]);
                assert(p[1 + 3 * node + 2] == wire@[4 + 1 + 3 * node + 2]);
                assert(bitv == spec_huff_bit(p, bstart as int, b as int));
            }
            let leaf = if !bitv {
                f % 2 == 1
            } else {
                (f / 2) % 2 == 1
            };
            if leaf {
                syms.push(c);
                b = b + 1;
                break ;
            }
            if c == 0 || node + (c as usize) >= n {
                return Err(CodecError::TreeCorruption);
            }
            node = node + c as usize;
            b = b + 1;
        }
        remaining = remaining - 1;
        proof {
            assert(spec_huff_run(p, n as int, bstart as int, b0, (remaining + 1) as nat, prev_syms)
                == spec_huff_run(p, n as int, bstart as int, b as int, remaining as nat, syms@));
            assert((total - (remaining + 1)) * (n as int) + (n as int) == (total - remaining) * (
            n as int)) by (nonlinear_arith);
        }
    }
    if tag == HUFF8_TAG {
        proof {
            assert(spec_huff_run(p, n as int, bstart as int, b as int, 0, syms@) == Ok::<
                Seq<u8>,
                CodecError,
            >(syms@));
        }
        Ok(syms)
    } else {
        let mut out: Vec<u8> = Vec::new();
        let mut t: usize = 0;
        let half = total / 2;
        proof {
            assert(spec_huff_run(p, n as int, bstart as int, b as int, 0, syms@) == Ok::<
                Seq<u8>,
                CodecError,
            >(syms@));
            assert(syms@.len() == total);
        }
        while t < half
            invariant
                syms@.len() == total,
                total == 2 * half,
                t <= half,
                out@ == spec_nibble_bytes(syms@).take(t as int),
            decreases half - t,
        {
            let hi = syms[2 * t] % 16;
            let lo = syms[2 * t + 1] % 16;
            let v = hi * 16 + lo;
            proof {
                assert(v == spec_nibble_bytes(syms@)[t as int]);
                assert(spec_nibble_bytes(syms@).take(t + 1) =~= spec_nibble_bytes(syms@).take(
                    t as int,
                ).push(v));
            }
            out.push(v);
            t += 1;
        }
        proof {
            assert(out@ =~= spec_nibble_bytes(syms@));
        }
        Ok(out)
    }
}

/// A code tree under construction: a leaf holding one symbol, or an
/// internal node with a zero-child and a one-child.
enum CodeTree {
    Leaf(u8),
    Node(Box<CodeTree>, Box<CodeTree>),
}

/// The number of internal nodes of a code tree.
spec fn icount(t: CodeTree) -> int
    decreases t,
{
    match t {
        CodeTree::Leaf(_) => 0,
        CodeTree::Node(l, r) => 1 + icount(*l) + icount(*r),
    }
}

/// A tree has no negative number of internal nodes.
proof fn lemma_icount_nonneg(t: CodeTree)
    ensures
        icount(t) >= 0,
    decreases t,
{
    match t {
        CodeTree::Leaf(_) => {},
        CodeTree::Node(l, r) => {
            lemma_icount_nonneg(*l);
            lemma_icount_nonneg(*r);
        },
    }
}

/// Whether `s` is the symbol of some leaf of the code tree.
spec fn tree_has(t: CodeTree, s: u8) -> bool
    decreases t,
{
    match t {
        CodeTree::Leaf(x) => x == s,
        CodeTree::Node(l, r) => tree_has(*l, s) || tree_has(*r, s),
    }
}

/// Whether `s` is the symbol of some leaf of the serialized table reachable
/// from record `node` through forward references only.
spec fn tbl_has(tbl: Seq<u8>, n: int, node: int, s: u8) -> bool
    decreases n - node,
{
    if !(0 <= node < n) || 3 * n > tbl.len() {
        false
    } else {
        let f = tbl[3 * node];
        let c0 = tbl[3 * node + 1];
        let c1 = tbl[3 * node + 2];
        ||| (f % 2 == 1 && c0 == s)
        ||| (f % 2 != 1 && c0 != 0 && node + c0 < n && tbl_has(tbl, n, node + c0, s))
        ||| ((f / 2) % 2 == 1 && c1 == s)
        ||| ((f / 2) % 2 != 1 && c1 != 0 && node + c1 < n && tbl_has(tbl, n, node + c1, s))
    }
}

/// Reachability below a record survives appends to the table and writes
/// before that record: it reads only the records from `node` up to `n1`.
proof fn lemma_tbl_has_frame(t1: Seq<u8>, t2: Seq<u8>, n1: int, n2: int, node: int, s: u8)
    requires
        0 <= node,
        n1 <= n2,
        3 * n1 <= t1.len(),
        3 * n2 <= t2.len(),
        tbl_has(t1, n1, node, s),
        forall|j: int| 3 * node <= j < 3 * n1 ==> #[trigger] t2[j] == t1[j],
    ensures
        tbl_has(t2, n2, node, s),
    decreases n1 - node,
{
    assert(node < n1);
    assert(t2[3 * node] == t1[3 * node]);
    assert(t2[3 * node + 1] == t1[3 * node + 1]);
    assert(t2[3 * node + 2] == t1[3 * node + 2]);
    let f = t1[3 * node];
    let c0 = t1[3 * node + 1];
    let c1 = t1[3 * node + 2];
    if f % 2 != 1 && c0 != 0 && node + c0 < n1 && tbl_has(t1, n1, node + c0, s) {
        lemma_tbl_has_frame(t1, t2, n1, n2, node + c0, s);
    }
    if (f / 2) % 2 != 1 && c1 != 0 && node + c1 < n1 && tbl_has(t1, n1, node + c1, s) {
        lemma_tbl_has_frame(t1, t2, n1, n2, node + c1, s);
    }
}

/// The total number of internal nodes across a forest.
spec fn forest_ic(s: Seq<CodeTree>) -> int
    decreases s.len(),
{
    if s.len() == 0 {
        0
    } else {
        icount(s[0]) + forest_ic(s.drop_first())
    }
}

/// Pushing a tree adds its internal nodes to the total.
proof fn lemma_forest_ic_push(s: Seq<CodeTree>, t: CodeTree)
    ensures
        forest_ic(s.push(t)) == forest_ic(s) + icount(t),
    decreases s.len(),
{
    if s.len() == 0 {
        assert(s.push(t)[0] == t);
        assert(s.push(t).drop_first() =~= Seq::<CodeTree>::empty());
        assert(forest_ic(Seq::<CodeTree>::empty()) == 0);
        assert(forest_ic(s) == 0);
    } else {
        assert(s.push(t)[0] == s[0]);
        assert(s.push(t).drop_first() =~= s.drop_first().push(t));
        lemma_forest_ic_push(s.drop_first(), t);
    }
}

/// Removing a tree takes its internal nodes off the total.
proof fn lemma_forest_ic_remove(s: Seq<CodeTree>, i: int)
    requires
        0 <= i < s.len(),
    ensures
        forest_ic(s.remove(i)) == forest_ic(s) - icount(s[i]),
    decreases i,
{
    if i == 0 {
        assert(s.remove(0) =~= s.drop_first());
    } else {
        assert(s.remove(i)[0] == s[0]);
        assert(s.remove(i).drop_first() =~= s.drop_first().remove(i - 1));
        lemma_forest_ic_remove(s.drop_first(), i - 1);
    }
}

/// An internal node counts itself.
proof fn lemma_node_icount_pos(t: CodeTree)
    requires
        t is Node,
    ensures
        icount(t) >= 1,
{
    match t {
        CodeTree::Leaf(_) => {},
        CodeTree::Node(l, r) => {
            lemma_icount_nonneg(*l);
            lemma_icount_nonneg(*r);
        },
    }
}

/// Counts a tree's internal nodes, reporting a ceiling value for any tree
/// too large to serialize rather than counting it out.
fn count_internal(t: &CodeTree) -> (r: usize)
    ensures
        r == icount(*t) || (r == 4096 && icount(*t) >= 4096),
    decreases *t,
{
    match t {
        CodeTree::Leaf(_) => 0,
        CodeTree::Node(l, r2) => {
            proof {
                lemma_icount_nonneg(**l);
                lemma_icount_nonneg(**r2);
            }
            let a = count_internal(&**l);
            let b = count_internal(&**r2);
            if a >= 4096 || b >= 4096 {
                4096
            } else {
                let s = a + b + 1;
                if s > 4096 {
                    4096
                } else {
                    s
                }
            }
        },
    }
}

/// Serializes a code tree into the flat table, parents before children, and
/// returns the index of the tree's own record.  Every leaf of the tree
/// becomes a leaf of the table reachable from that record.
fn emit_tree(t: &CodeTree, table: &mut Vec<u8>) -> (idx: u8)
    requires
        t is Node,
        old(table)@.len() % 3 == 0,
        old(table)@.len() / 3 + icount(*t) <= 255,
    ensures
        final(table)@.len() == old(table)@.len() + 3 * icount(*t),
        final(table)@.len() % 3 == 0,
        idx as int == old(table)@.len() / 3,
        final(table)@.take(old(table)@.len() as int) == old(table)@,
        forall|s: u8|
            #[trigger] tree_has(*t, s) ==> tbl_has(
                final(table)@,
                final(table)@.len() as int / 3,
                idx as int,
                s,
            ),
    decreases *t,
{
    match t {
        CodeTree::Leaf(_) => {
            proof {
                assert(false);
            }
            0
        },
        CodeTree::Node(l, r) => {
            proof {
                lemma_icount_nonneg(**l);
                lemma_icount_nonneg(**r);
            }
            let idx = table.len() / 3;
            table.push(0);
            table.push(0);
            table.push(0);
            let mut f: u8 = 0;
            let mut c0: u8 = 0;
            let mut c1: u8 = 0;
            let ghost t_base = table@;
            match &**l {
                CodeTree::Leaf(s) => {
                    f = f + 1;
                    c0 = *s;
                },
                CodeTree::Node(_, _) => {
                    let ci = emit_tree(&**l, table);
                    c0 = ci - idx as u8;
                },
            }
            let ghost t_mid = table@;
            let ghost f_left = f;
            match &**r {
                CodeTree::Leaf(s) => {
                    f = f + 2;
                    c1 = *s;
                },
                CodeTree::Node(_, _) => {
                    let ci = emit_tree(&**r, table);
                    c1 = ci - idx as u8;
                },
            }
            let ghost t_right = table@;
            table.set(3 * idx, f);
            table.set(3 * idx + 1, c0);
            table.set(3 * idx + 2, c1);
            proof {
                let tf = table@;
                let nf = tf.len() as int / 3;
                assert(tf.take(t_base.len() - 3) =~= t_base.take(t_base.len() - 3));
                assert(tf[3 * idx] == f && tf[3 * idx + 1] == c0 && tf[3 * idx + 2] == c1);
                assert((**l) is Node ==> idx + c0 == idx + 1);
                assert((**r) is Node ==> idx + c1 == t_mid.len() as int / 3);
                assert forall|s: u8| #[trigger] tree_has(*t, s) implies tbl_has(
                    tf,
                    nf,
                    idx as int,
                    s,
                ) by {
                    if tree_has(**l, s) {
                        match &**l {
                            CodeTree::Leaf(x) => {
                                assert(f % 2 == 1 && c0 == s);
                            },
                            CodeTree::Node(_, _) => {
                                assert(f % 2 != 1) by {
                                    assert(f_left == 0);
                                }
                                assert(tbl_has(t_mid, t_mid.len() as int / 3, idx + c0, s));
                                assert forall|j: int|
                                    3 * (idx + c0) <= j < t_mid.len() implies #[trigger] tf[j]
                                    == t_mid[j] by {
                                    assert(t_right.take(t_mid.len() as int) == t_mid);
                                    assert(t_right[j] == t_mid[j]);
                                    assert(j >= 3 * idx + 3);
                                    assert(tf[j] == t_right[j]);
                                }
                                lemma_tbl_has_frame(t_mid, tf, t_mid.len() as int / 3, nf,
                                    idx + c0, s);
                                assert(c0 != 0 && idx + c0 < nf);
                            },
                        }
                    } else {
                        assert(tree_has(**r, s));
                        match &**r {
                            CodeTree::Leaf(x) => {
                                assert((f / 2) % 2 == 1 && c1 == s);
                            },
                            CodeTree::Node(_, _) => {
                                assert((f / 2) % 2 != 1) by {
                                    assert(f == f_left && (f_left == 0 || f_left == 1));
                                }
                                assert(tbl_has(t_right, t_right.len() as int / 3, idx + c1, s));
                                assert forall|j: int|
                                    3 * (idx + c1) <= j < t_right.len() implies #[trigger] tf[j]
                                    == t_right[j] by {
                                    assert(j >= 3 * idx + 3);
                                }
                                lemma_tbl_has_frame(t_right, tf, t_right.len() as int / 3, nf,
                                    idx + c1, s);
                                assert(c1 != 0 && idx + c1 < nf);
                            },
                        }
                    }
                }
            }
            idx as u8
        },
    }
}

/// The recorded codes are complete and well-placed: every symbol marked
/// present has a code of at least one bit stored in `store` that leads from
/// the table's root to a leaf holding that symbol.
spec fn codes_ok(
    tbl: Seq<u8>,
    n: int,
    store: Seq<bool>,
    starts: Seq<usize>,
    lens: Seq<usize>,
    have: Seq<bool>,
) -> bool {
    forall|s: int|
        0 <= s < 256 && have[s] ==> (#[trigger] starts[s] + lens[s] <= store.len() && lens[s] >= 1
            && table_path(tbl, n, 0, store.subrange(starts[s] as int, starts[s] + lens[s]), s as u8))
}

/// Walks the serialized table below record `node` and records, for every
/// leaf found, the bit path from the root that reaches it: the path's bits
/// are appended to `store`, and the leaf's symbol is marked present with
/// the path's position and length.  A child record that does not stand
/// strictly between its parent and the table's end is not followed.
fn collect_table_codes(
    table: &Vec<u8>,
    n: usize,
    node: usize,
    path: &mut Vec<bool>,
    store: &mut Vec<bool>,
    starts: &mut Vec<usize>,
    lens: &mut Vec<usize>,
    have: &mut Vec<bool>,
)
    requires
        table@.len() == 3 * n,
        n <= 255,
        node < n,
        old(starts)@.len() == 256,
        old(lens)@.len() == 256,
        old(have)@.len() == 256,
        table_reaches(table@, n as int, 0, old(path)@, node as int),
        codes_ok(table@, n as int, old(store)@, old(starts)@, old(lens)@, old(have)@),
    ensures
        final(starts)@.len() == 256,
        final(lens)@.len() == 256,
        final(have)@.len() == 256,
        final(path)@ == old(path)@,
        old(store)@.len() <= final(store)@.len(),
        final(store)@.take(old(store)@.len() as int) == old(store)@,
        codes_ok(table@, n as int, final(store)@, final(starts)@, final(lens)@, final(have)@),
        forall|s: int| 0 <= s < 256 && old(have)@[s] ==> final(have)@[s],
        forall|s: int|
            0 <= s < 256 && tbl_has(table@, n as int, node as int, s as u8) ==> final(have)@[s],
    decreases n - node,
{
    let f = table[3 * node];
    let c0 = table[3 * node + 1];
    let c1 = table[3 * node + 2];
    let ghost root_path = path@;
    path.push(false);
    if f % 2 == 1 {
        proof {
            assert(table_path(table@, n as int, node as int, seq![false], c0));
            lemma_reaches_then_path(table@, n as int, 0, root_path, node as int, seq![false], c0);
            assert(root_path + seq![false] =~= path@);
        }
        record_leaf(table, n, c0, path, store, starts, lens, have);
    } else {
        if c0 != 0 && node + (c0 as usize) < n {
            proof {
                lemma_reaches_extend(table@, n as int, 0, root_path, node as int, false);
            }
            collect_table_codes(table, n, node + c0 as usize, path, store, starts, lens, have);
        }
    }
    path.pop();
    proof {
        assert(path@ =~= root_path);
    }
    let ghost mid_store = store@;
    path.push(true);
    if (f / 2) % 2 == 1 {
        proof {
            assert(table_path(table@, n as int, node as int, seq![true], c1));
            lemma_reaches_then_path(table@, n as int, 0, root_path, node as int, seq![true], c1);
            assert(root_path + seq![true] =~= path@);
        }
        record_leaf(table, n, c1, path, store, starts, lens, have);
    } else {
        if c1 != 0 && node + (c1 as usize) < n {
            proof {
                lemma_reaches_extend(table@, n as int, 0, root_path, node as int, true);
            }
            collect_table_codes(table, n, node + c1 as usize, path, store, starts, lens, have);
        }
    }
    path.pop();
    proof {
        assert(path@ =~= root_path);
        assert(final(store)@.take(old(store)@.len() as int) =~= old(store)@);
        assert forall|s: int|
            0 <= s < 256 && tbl_has(table@, n as int, node as int, s as u8) implies final(have)@[s]
             by {
            let sy = s as u8;
            if f % 2 == 1 && c0 == sy {
            } else if f % 2 != 1 && c0 != 0 && node + c0 < n && tbl_has(
                table@,
                n as int,
                node + c0,
                sy,
            ) {
            } else if (f / 2) % 2 == 1 && c1 == sy {
            } else {
                assert((f / 2) % 2 != 1 && c1 != 0 && node + c1 < n && tbl_has(
                    table@,
                    n as int,
                    node + c1,
                    sy,
                ));
            }
        }
    }
}

/// Appends the current path's bits to the store and records them as the
/// code of `sym`, provided the path does lead from the root to a leaf
/// holding `sym`.
fn record_leaf(
    table: &Vec<u8>,
    n: usize,
    sym: u8,
    path: &mut Vec<bool>,
    store: &mut Vec<bool>,
    starts: &mut Vec<usize>,
    lens: &mut Vec<usize>,
    have: &mut Vec<bool>,
)
    requires
        old(starts)@.len() == 256,
        old(lens)@.len() == 256,
        old(have)@.len() == 256,
        old(path)@.len() >= 1,
        codes_ok(table@, n as int, old(store)@, old(starts)@, old(lens)@, old(have)@),
        table_path(table@, n as int, 0, old(path)@, sym),
    ensures
        final(starts)@.len() == 256,
        final(lens)@.len() == 256,
        final(have)@.len() == 256,
        final(path)@ == old(path)@,
        old(store)@.len() <= final(store)@.len(),
        final(store)@.take(old(store)@.len() as int) == old(store)@,
        codes_ok(table@, n as int, final(store)@, final(starts)@, final(lens)@, final(have)@),
        forall|s: int| 0 <= s < 256 && old(have)@[s] ==> final(have)@[s],
        final(have)@[sym as int],
{
    let start = store.len();
    let plen = path.len();
    let mut i: usize = 0;
    while i < plen
        invariant
            plen == path@.len(),
            i <= plen,
            store@.len() == start + i,
            start == old(store)@.len(),
            path@ == old(path)@,
            store@.take(start as int) == old(store)@,
            store@.skip(start as int) == path@.take(i as int),
        decreases plen - i,
    {
        let b = path[i];
        proof {
            assert(store@.push(b).take(start as int) =~= store@.take(start as int));
            assert(store@.push(b).skip(start as int) =~= path@.take(i + 1));
        }
        store.push(b);
        i += 1;
    }
    starts.set(sym as usize, start);
    lens.set(sym as usize, plen);
    have.set(sym as usize, true);
    proof {
        assert(store@.subrange(start as int, start + plen) =~= path@);
        assert forall|s: int| 0 <= s < 256 && final(have)@[s] implies (#[trigger] final(starts)@[s]
            + final(lens)@[s] <= final(store)@.len() && final(lens)@[s] >= 1 && table_path(
            table@,
            n as int,
            0,
            final(store)@.subrange(final(starts)@[s] as int, final(starts)@[s] + final(lens)@[s]),
            s as u8,
        )) by {
            if s == sym as int {
            } else {
                assert(old(have)@[s]);
                assert(final(store)@.subrange(old(starts)@[s] as int, old(starts)@[s] + old(
                    lens,
                )@[s]) =~= old(store)@.subrange(old(starts)@[s] as int, old(starts)@[s] + old(
                    lens,
                )@[s]));
            }
        }
    }
}

/// Compresses `data` into a tree-entropy stream over 4-bit or 8-bit
/// symbols: symbol frequencies are counted, the two least frequent trees
/// are merged until one remains — always the first-found minimum, which
/// becomes the zero-child, then the first-found minimum of the rest, which
/// becomes the one-child, so equal frequencies follow one fixed rule — the
/// tree is serialized parents-first, and each symbol's path is written
/// through the bitstream, padded with zero bits to a whole byte.  Encoding always
/// succeeds: at most 256 distinct symbols merge into a tree of at most 255
/// internal records, every input symbol is one of its leaves, and the
/// stream decodes back to `data` exactly.
#[verifier::rlimit(100)]
pub fn compress_huffman(data: &Vec<u8>, four_bit_symbols: bool) -> (r: Result<Vec<u8>, CodecError>)
    requires
        data@.len() <= 0xFF_FFFF,
    ensures
        r is Ok,
        r.unwrap()@.len() >= 4,
        r.unwrap()@[0] == (if four_bit_symbols {
            HUFF4_TAG
        } else {
            HUFF8_TAG
        }),
        spec_header_size(r.unwrap()@) == data@.len(),
        spec_huff_stream(r.unwrap()@) == Ok::<Seq<u8>, CodecError>(data@),
{
    let size = data.len();
    let tag = if four_bit_symbols {
        HUFF4_TAG
    } else {
        HUFF8_TAG
    };
    let mut out = make_header(tag, size);
    if size == 0 {
        proof {
            assert(spec_huff_stream(out@) == Ok::<Seq<u8>, CodecError>(Seq::empty()));
            assert(data@ =~= Seq::<u8>::empty());
        }
        return Ok(out);
    }
    let mut syms: Vec<u8> = Vec::new();
    if four_bit_symbols {
        let mut i: usize = 0;
        proof {
            assert(spec_nibbles_of(data@.take(0)) =~= Seq::<u8>::empty());
        }
        while i < data.len()
            invariant
                i <= data@.len(),
                data@.len() <= 0xFF_FFFF,
                syms@.len() == 2 * i,
                syms@ == spec_nibbles_of(data@.take(i as int)),
            decreases data@.len() - i,
        {
            let b = data[i];
            syms.push(b / 16);
            syms.push(b % 16);
            proof {
                assert(spec_nibbles_of(data@.take(i + 1)) =~= syms@);
            }
            i += 1;
        }
        proof {
            assert(data@.take(data@.len() as int) =~= data@);
        }
    } else {
        let mut i: usize = 0;
        while i < data.len()
            invariant
                i <= data@.len(),
                data@.len() <= 0xFF_FFFF,
                syms@.len() == i,
                syms@ == data@.take(i as int),
            decreases data@.len() - i,
        {
            let b = data[i];
            proof {
                assert(data@.take(i + 1) =~= data@.take(i as int).push(b));
            }
            syms.push(b);
            i += 1;
        }
        proof {
            assert(data@.take(data@.len() as int) =~= data@);
        }
    }
    let total = syms.len();
    let mut freq: Vec<u64> = Vec::new();
    let mut s: usize = 0;
    while s < 256
        invariant
            s <= 256,
            freq@.len() == s,
            forall|t: int| 0 <= t < s ==> freq@[t] == 0,
        decreases 256 - s,
    {
        freq.push(0);
        s += 1;
    }
    let mut i: usize = 0;
    while i < total
        invariant
            i <= total,
            total == syms@.len(),
            total <= 2 * 0xFF_FFFF,
            freq@.len() == 256,
            forall|t: int| 0 <= t < 256 ==> #[trigger] freq@[t] <= i,
            forall|t: int| 0 <= t < i ==> freq@[(#[trigger] syms@[t]) as int] >= 1,
        decreases total - i,
    {
        let sy = syms[i] as usize;
        let c = freq[sy];
        let ghost fo = freq@;
        freq.set(sy, c + 1);
        proof {
            assert forall|t: int| 0 <= t < i + 1 implies freq@[(#[trigger] syms@[t]) as int]
                >= 1 by {
                if t < i {
                    assert(fo[syms@[t] as int] >= 1);
                    if syms@[t] as int != sy as int {
                        assert(freq@[syms@[t] as int] == fo[syms@[t] as int]);
                    }
                }
            }
        }
        i += 1;
    }
    let mut freqs: Vec<u64> = Vec::new();
    let mut trees: Vec<CodeTree> = Vec::new();
    let mut s: usize = 0;
    while s < 256
        invariant
            s <= 256,
            freq@.len() == 256,
            forall|t: int| 0 <= t < 256 ==> #[trigger] freq@[t] <= 2 * 0xFF_FFFF,
            freqs@.len() == trees@.len(),
            trees@.len() <= s,
            forest_ic(trees@) == 0,
            forall|t: int| 0 <= t < freqs@.len() ==> #[trigger] freqs@[t] <= 0x7FFF_FFFF_FFFF_FFFF,
            forall|t: int|
                0 <= t < s && #[trigger] freq@[t] >= 1 ==> exists|j: int|
                    0 <= j < trees@.len() && tree_has(#[trigger] trees@[j], t as u8),
        decreases 256 - s,
    {
        let f = freq[s];
        let ghost tprev = trees@;
        if f > 0 {
            freqs.push(f);
            trees.push(CodeTree::Leaf(s as u8));
            proof {
                lemma_forest_ic_push(tprev, CodeTree::Leaf(s as u8));
            }
        }
        proof {
            assert forall|t: int| 0 <= t < s + 1 && #[trigger] freq@[t] >= 1 implies exists|j: int|
                0 <= j < trees@.len() && tree_has(#[trigger] trees@[j], t as u8) by {
                if t < s {
                    let j0 = choose|j: int|
                        0 <= j < tprev.len() && tree_has(#[trigger] tprev[j], t as u8);
                    assert(trees@[j0] == tprev[j0]);
                } else {
                    assert(f > 0);
                    assert(tree_has(trees@[trees@.len() - 1], t as u8));
                }
            }
        }
        s += 1;
    }
    proof {
        assert(total >= 1);
        assert(freq@[syms@[0] as int] >= 1);
        assert(trees@.len() >= 1);
    }
    if trees.len() == 1 {
        let ghost tprev = trees@;
        let only = trees.remove(0);
        let ghost gonly = only;
        let fv = freqs[0];
        let sym = match &only {
            CodeTree::Leaf(sv) => *sv,
            CodeTree::Node(_, _) => 0,
        };
        trees.push(only);
        freqs.push(fv);
        trees.push(CodeTree::Leaf(sym));
        proof {
            assert(gonly == tprev[0]);
            assert(forest_ic(tprev) == icount(gonly) + forest_ic(tprev.drop_first())) by {
                assert(tprev.drop_first() =~= Seq::<CodeTree>::empty());
                assert(forest_ic(Seq::<CodeTree>::empty()) == 0);
            }
            assert(tprev.remove(0) =~= Seq::<CodeTree>::empty());
            assert(trees@ == Seq::<CodeTree>::empty().push(gonly).push(CodeTree::Leaf(sym)));
            lemma_forest_ic_push(Seq::<CodeTree>::empty(), gonly);
            lemma_forest_ic_push(Seq::<CodeTree>::empty().push(gonly), CodeTree::Leaf(sym));
            assert(forest_ic(Seq::<CodeTree>::empty()) == 0);
            assert(forest_ic(trees@) == 0);
            assert forall|t: int| 0 <= t < 256 && #[trigger] freq@[t] >= 1 implies exists|j: int|
                0 <= j < trees@.len() && tree_has(#[trigger] trees@[j], t as u8) by {
                let j0 = choose|j: int|
                    0 <= j < tprev.len() && tree_has(#[trigger] tprev[j], t as u8);
                assert(tree_has(trees@[0], t as u8));
            }
        }
    }
    let ghost forest0 = trees@.len() as int;
    proof {
        assert(trees@.len() >= 2);
        assert(forest0 <= 256);
    }
    while trees.len() > 1
        invariant
            freqs@.len() == trees@.len(),
            trees@.len() >= 1,
            freq@.len() == 256,
            forest0 <= 256,
            forest_ic(trees@) + trees@.len() == forest0,
            trees@.len() == 1 ==> trees@[0] is Node,
            forall|t: int| 0 <= t < freqs@.len() ==> #[trigger] freqs@[t] <= 0x7FFF_FFFF_FFFF_FFFF,
            forall|t: int|
                0 <= t < 256 && #[trigger] freq@[t] >= 1 ==> exists|j: int|
                    0 <= j < trees@.len() && tree_has(#[trigger] trees@[j], t as u8),
        decreases trees@.len(),
    {
        let ghost s0 = trees@;
        let mut mi: usize = 0;
        let mut t: usize = 1;
        while t < freqs.len()
            invariant
                freqs@.len() == trees@.len(),
                freqs@.len() >= 2,
                mi < t <= freqs@.len(),
            decreases freqs@.len() - t,
        {
            if freqs[t] < freqs[mi] {
                mi = t;
            }
            t += 1;
        }
        let f1 = freqs.remove(mi);
        let t1 = trees.remove(mi);
        let ghost gt1 = t1;
        let mut mj: usize = 0;
        let mut t: usize = 1;
        while t < freqs.len()
            invariant
                freqs@.len() == trees@.len(),
                freqs@.len() >= 1,
                mj < t <= freqs@.len(),
            decreases freqs@.len() - t,
        {
            if freqs[t] < freqs[mj] {
                mj = t;
            }
            t += 1;
        }
        let f2 = freqs.remove(mj);
        let t2 = trees.remove(mj);
        let ghost gt2 = t2;
        let nf: u64 = if f1 > 0x7FFF_FFFF_FFFF_FFFF - f2 {
            0x7FFF_FFFF_FFFF_FFFF
        } else {
            f1 + f2
        };
        freqs.push(nf);
        trees.push(CodeTree::Node(Box::new(t1), Box::new(t2)));
        proof {
            let s1 = s0.remove(mi as int);
            let s2 = s1.remove(mj as int);
            let merged = trees@[trees@.len() - 1];
            assert(trees@ == s2.push(merged));
            assert(tree_has(merged, 0u8) == (tree_has(gt1, 0u8) || tree_has(gt2, 0u8)));
            lemma_forest_ic_remove(s0, mi as int);
            lemma_forest_ic_remove(s1, mj as int);
            lemma_forest_ic_push(s2, merged);
            assert(icount(merged) == 1 + icount(gt1) + icount(gt2));
            assert(forest_ic(trees@) + trees@.len() == forest0);
            assert forall|t: int| 0 <= t < 256 && #[trigger] freq@[t] >= 1 implies exists|j: int|
                0 <= j < trees@.len() && tree_has(#[trigger] trees@[j], t as u8) by {
                let x = t as u8;
                assert(exists|j: int| 0 <= j < s0.len() && tree_has(#[trigger] s0[j], x));
                let j0 = choose|j: int| 0 <= j < s0.len() && tree_has(#[trigger] s0[j], x);
                if j0 == mi {
                    assert(tree_has(merged, x));
                    assert(tree_has(trees@[trees@.len() - 1], x));
                } else {
                    let j1: int = if j0 < mi {
                        j0
                    } else {
                        j0 - 1
                    };
                    assert(s1[j1] == s0[j0]);
                    if j1 == mj {
                        assert(tree_has(merged, x));
                        assert(tree_has(trees@[trees@.len() - 1], x));
                    } else {
                        let j2: int = if j1 < mj {
                            j1
                        } else {
                            j1 - 1
                        };
                        assert(s2[j2] == s1[j1]);
                        assert(trees@[j2] == s2[j2]);
                        assert(tree_has(trees@[j2], x));
                    }
                }
            }
        }
    }
    let ghost sfin = trees@;
    let root = trees.remove(0);
    proof {
        assert(root == sfin[0]);
        assert(root is Node);
        assert(forest_ic(sfin) == icount(root)) by {
            assert(sfin.drop_first() =~= Seq::<CodeTree>::empty());
            assert(forest_ic(Seq::<CodeTree>::empty()) == 0);
        }
        assert(icount(root) == forest0 - 1);
        lemma_node_icount_pos(root);
        assert(1 <= icount(root) <= 255);
        assert forall|t: int| 0 <= t < 256 && #[trigger] freq@[t] >= 1 implies tree_has(
            root,
            t as u8,
        ) by {
            let j0 = choose|j: int| 0 <= j < sfin.len() && tree_has(#[trigger] sfin[j], t as u8);
        }
    }
    let ic = count_internal(&root);
    proof {
        assert(1 <= ic <= 255);
    }
    let mut table: Vec<u8> = Vec::new();
    let _root_idx = emit_tree(&root, &mut table);
    let mut path: Vec<bool> = Vec::new();
    let mut store: Vec<bool> = Vec::new();
    let mut starts: Vec<usize> = Vec::new();
    let mut lens: Vec<usize> = Vec::new();
    let mut have: Vec<bool> = Vec::new();
    let mut s: usize = 0;
    while s < 256
        invariant
            s <= 256,
            starts@.len() == s,
            lens@.len() == s,
            have@.len() == s,
            forall|t: int| 0 <= t < s ==> !(#[trigger] have@[t]),
        decreases 256 - s,
    {
        starts.push(0);
        lens.push(0);
        have.push(false);
        s += 1;
    }
    proof {
        assert(table_reaches(table@, ic as int, 0, Seq::<bool>::empty(), 0));
    }
    collect_table_codes(&table, ic, 0, &mut path, &mut store, &mut starts, &mut lens, &mut have);
    let slen = store.len();
    let ghost tablev = table@;
    let ghost nn = ic as int;
    proof {
        assert forall|t: int| 0 <= t < total implies have@[(#[trigger] syms@[t]) as int] by {
            let x = syms@[t];
            assert(freq@[x as int] >= 1);
            assert(tree_has(root, x));
            assert(tbl_has(tablev, nn, 0, x));
            assert((x as int) as u8 == x);
        }
    }
    out.push(ic as u8);
    out.append(&mut table);
    let base = out.len();
    let ghost pre = out@;
    proof {
        assert(size >= 1);
        assert(base == 5 + 3 * nn);
        assert(pre[0] == tag);
        assert(pre[4] == ic as u8);
        assert(forall|kk: int| 0 <= kk < 3 * nn ==> pre[5 + kk] == tablev[kk]);
    }
    let mut acc: u8 = 0;
    let mut used: u8 = 0;
    let ghost mut written: Seq<bool> = Seq::empty();
    let ghost mut codes_seq: Seq<Seq<bool>> = Seq::empty();
    proof {
        lemma2_to64();
    }
    let mut i: usize = 0;
    while i < total
        invariant
            i <= total,
            total == syms@.len(),
            used < 8,
            (acc as nat) < pow2(used as nat),
            starts@.len() == 256,
            lens@.len() == 256,
            have@.len() == 256,
            slen == store@.len(),
            nn == ic as int,
            1 <= ic <= 255,
            1 <= size == data@.len(),
            tag == (if four_bit_symbols { HUFF4_TAG } else { HUFF8_TAG }),
            codes_ok(tablev, nn, store@, starts@, lens@, have@),
            forall|t: int| 0 <= t < total ==> have@[(#[trigger] syms@[t]) as int],
            codes_seq.len() == i,
            written == cat_codes(codes_seq),
            forall|t: int| 0 <= t < i ==> (#[trigger] codes_seq[t]).len() >= 1,
            forall|t: int|
                0 <= t < i ==> table_path(tablev, nn, 0, #[trigger] codes_seq[t], syms@[t]),
            base == pre.len(),
            base == 5 + 3 * nn,
            out@.take(base as int) == pre,
            out@.len() == base + written.len() / 8,
            used as int == written.len() % 8,
            forall|bb: int|
                0 <= bb < 8 * (out@.len() - base) ==> #[trigger] bit_at(
                    out@[base + bb / 8] as nat,
                    (7 - bb % 8) as nat,
                ) == written[bb],
            forall|t: int|
                0 <= t < used ==> #[trigger] bit_at(acc as nat, (used - 1 - t) as nat) == written[8
                    * (out@.len() - base) + t],
        decreases total - i,
    {
        let sy = syms[i] as usize;
        proof {
            assert(have@[(syms@[i as int]) as int]);
        }
        let cs = starts[sy];
        let cl = lens[sy];
        let ghost codev = store@.subrange(cs as int, cs as int + cl as int);
        let ghost ws0 = written;
        let ghost prev_codes = codes_seq;
        let mut k: usize = 0;
        proof {
            assert(ws0 + codev.take(0) =~= ws0);
        }
        while k < cl
            invariant
                k <= cl,
                slen == store@.len(),
                cs + cl <= slen,
                used < 8,
                (acc as nat) < pow2(used as nat),
                codev == store@.subrange(cs as int, cs as int + cl as int),
                written == ws0 + codev.take(k as int),
                base == pre.len(),
                out@.take(base as int) == pre,
                out@.len() == base + written.len() / 8,
                used as int == written.len() % 8,
                forall|bb: int|
                    0 <= bb < 8 * (out@.len() - base) ==> #[trigger] bit_at(
                        out@[base + bb / 8] as nat,
                        (7 - bb % 8) as nat,
                    ) == written[bb],
                forall|t: int|
                    0 <= t < used ==> #[trigger] bit_at(acc as nat, (used - 1 - t) as nat)
                        == written[8 * (out@.len() - base) + t],
            decreases cl - k,
        {
            proof {
                lemma_pow2_strictly_increases(used as nat, 8);
                lemma_pow2_unfold((used + 1) as nat);
                lemma2_to64();
            }
            let bitv = store[cs + k];
            let ghost w_old = written;
            let ghost acc_old = acc as nat;
            let ghost used_old = used as int;
            let ghost flushed = out@.len() - base;
            proof {
                written = written.push(bitv);
                assert(codev[k as int] == bitv);
                assert(ws0 + codev.take(k + 1) =~= written);
                assert(written.len() == 8 * flushed + used_old + 1);
            }
            let m: u8 = if bitv {
                1
            } else {
                0
            };
            acc = acc * 2 + m;
            used = used + 1;
            proof {
                let mn: nat = m as nat;
                assert(acc as nat == 2 * acc_old + mn);
                assert forall|t: int| 0 <= t < used implies #[trigger] bit_at(
                    acc as nat,
                    (used - 1 - t) as nat,
                ) == written[8 * (out@.len() - base) + t] by {
                    if t < used_old {
                        lemma_shift_up(acc_old, mn, (used - 1 - t) as nat);
                        assert(bit_at(acc_old, (used_old - 1 - t) as nat) == w_old[8 * flushed
                            + t]);
                        assert(written[8 * flushed + t] == w_old[8 * flushed + t]);
                    } else {
                        lemma_new_low_bit(acc_old, mn);
                        assert(written[8 * flushed + t] == bitv);
                    }
                }
                assert forall|bb: int| 0 <= bb < 8 * (out@.len() - base) implies #[trigger] bit_at(
                    out@[base + bb / 8] as nat,
                    (7 - bb % 8) as nat,
                ) == written[bb] by {
                    assert(w_old[bb] == written[bb]);
                }
            }
            if used == 8 {
                let ghost old_out = out@;
                let ghost byte_n = acc as nat;
                proof {
                    assert forall|t: int| 0 <= t < 8 implies #[trigger] bit_at(
                        byte_n,
                        (7 - t) as nat,
                    ) == written[8 * flushed + t] by {
                        assert(bit_at(acc as nat, (used - 1 - t) as nat) == written[8 * (out@.len()
                            - base) + t]);
                    }
                }
                out.push(acc);
                acc = 0;
                used = 0;
                proof {
                    assert(pow2(0) == 1) by {
                        lemma2_to64();
                    }
                    assert(out@.take(base as int) =~= pre);
                    assert(out@.len() - base == flushed + 1);
                    assert(written.len() == 8 * (flushed + 1));
                    assert forall|bb: int| 0 <= bb < 8 * (out@.len() - base)
                        implies #[trigger] bit_at(out@[base + bb / 8] as nat, (7 - bb % 8) as nat)
                        == written[bb] by {
                        if bb < 8 * flushed {
                            assert(out@[base + bb / 8] == old_out[base + bb / 8]);
                            assert(bit_at(old_out[base + bb / 8] as nat, (7 - bb % 8) as nat)
                                == written[bb]);
                        } else {
                            let t = bb - 8 * flushed;
                            assert(bb / 8 == flushed);
                            assert(bb % 8 == t);
                            assert(base + flushed == old_out.len());
                            assert(out@[base + flushed] as nat == byte_n);
                            assert(bit_at(byte_n, (7 - t) as nat) == written[8 * flushed + t]);
                        }
                    }
                }
            }
            k += 1;
        }
        proof {
            assert(codev.take(cl as int) =~= codev);
            codes_seq = codes_seq.push(codev);
            lemma_cat_codes_push(prev_codes, codev);
            assert(written =~= cat_codes(codes_seq));
            assert(codes_seq[i as int] == codev);
            assert(syms@[i as int] == sy as u8);
            assert(table_path(tablev, nn, 0, codev, sy as u8));
        }
        i += 1;
    }
    let ghost flushed_final = out@.len() - base;
    if used > 0 {
        proof {
            lemma_pow2_adds(used as nat, (8 - used) as nat);
            lemma2_to64();
            assert((acc as nat) * pow2((8 - used) as nat) < pow2(8)) by (nonlinear_arith)
                requires
                    (acc as nat) < pow2(used as nat),
                    pow2(used as nat) * pow2((8 - used) as nat) == pow2(8),
                    pow2((8 - used) as nat) >= 1,
            ;
        }
        let mult = p2u8(8 - used);
        let ghost old_out = out@;
        let ghost acc_old = acc as nat;
        let pad = acc * mult;
        out.push(pad);
        proof {
            assert(out@.take(base as int) =~= pre);
            assert(pad as nat == acc_old * pow2((8 - used) as nat));
            assert forall|bb: int| 0 <= bb < written.len() implies #[trigger] bit_at(
                out@[base + bb / 8] as nat,
                (7 - bb % 8) as nat,
            ) == written[bb] by {
                if bb < 8 * flushed_final {
                    assert(out@[base + bb / 8] == old_out[base + bb / 8]);
                } else {
                    let t = bb - 8 * flushed_final;
                    assert(t < used);
                    assert(bb / 8 == flushed_final);
                    assert(bb % 8 == t);
                    assert(out@[base + flushed_final] == pad);
                    lemma_shift_up_many(acc_old, (8 - used) as nat, (7 - t) as nat);
                    assert(bit_at(pad as nat, (7 - t) as nat) == bit_at(
                        acc_old,
                        (used - 1 - t) as nat,
                    ));
                    assert(bit_at(acc_old, (used - 1 - t) as nat) == written[8 * flushed_final
                        + t]);
                }
            }
        }
    }
    proof {
        let w = out@;
        let p = w.skip(4);
        let bstart = 1 + 3 * nn;
        assert(w.take(base as int) == pre);
        assert(w[0] == pre[0] && w[4] == pre[4]);
        assert(spec_header_size(w) == spec_header_size(pre));
        assert(written.len() <= 8 * (w.len() - base));
        assert(p.len() == w.len() - 4);
        assert(w.len() - base == p.len() - bstart);
        assert forall|j: int| 0 <= j < written.len() implies #[trigger] spec_huff_bit(
            p,
            bstart,
            j,
        ) == written[j] by {
            assert(bit_at(w[base + j / 8] as nat, (7 - j % 8) as nat) == written[j]);
            assert(p[bstart + j / 8] == w[4 + (bstart + j / 8)]);
            assert(4 + (bstart + j / 8) == base + j / 8);
        }
        assert(p.subrange(1, 1 + 3 * nn) =~= tablev) by {
            assert forall|kk: int| 0 <= kk < 3 * nn implies p.subrange(1, 1 + 3 * nn)[kk]
                == tablev[kk] by {
                assert(p[1 + kk] == w[4 + (1 + kk)]);
                assert(w[5 + kk] == pre[5 + kk]);
                assert(4 + (1 + kk) == 5 + kk);
            }
        }
        assert(codes_seq.skip(0) =~= codes_seq);
        lemma_run_decodes(p, nn, bstart, syms@, codes_seq, 0, 0, Seq::<u8>::empty());
        assert(Seq::<u8>::empty() + syms@.skip(0) =~= syms@);
        assert(spec_huff_run(p, nn, bstart, 0, (syms@.len() - 0) as nat, Seq::<u8>::empty())
            == Ok::<Seq<u8>, CodecError>(syms@));
        assert(w.len() >= 4);
        assert(w[0] == tag);
        assert(spec_header_size(w) == size);
        assert(p[0] == ic as u8);
        assert(nn >= 1 && 1 + 3 * nn <= p.len());
        if four_bit_symbols {
            assert(total == 2 * size);
            assert(spec_nibble_bytes(syms@) =~= data@) by {
                assert forall|t: int| 0 <= t < size implies spec_nibble_bytes(syms@)[t]
                    == data@[t] by {
                    lemma_fundamental_div_mod(data@[t] as int, 16);
                    assert(syms@[2 * t] == data@[t] / 16) by {
                        assert((2 * t) % 2 == 0 && (2 * t) / 2 == t);
                    }
                    assert(syms@[2 * t + 1] == data@[t] % 16) by {
                        assert((2 * t + 1) % 2 == 1 && (2 * t + 1) / 2 == t);
                    }
                    assert(data@[t] / 16 < 16);
                    assert((data@[t] / 16) % 16 == data@[t] / 16);
                    assert((data@[t] % 16) % 16 == data@[t] % 16);
                }
            }
            assert(spec_huff_stream(w) == Ok::<Seq<u8>, CodecError>(data@));
        } else {
            assert(total == size);
            assert(spec_huff_stream(w) == Ok::<Seq<u8>, CodecError>(data@));
        }
    }
    Ok(out)
}

} // verus!
