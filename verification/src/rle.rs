//! The escape-flagged run-length scheme and its decoder, parameterized by
//! element width and by the flag-bit convention, so that the firmware format
//! and the game-specific variants share one verified core.
//!
//! A run is one flag byte followed by its data.  Under the normal convention
//! a flag below 0x80 marks a literal run of `flag + 1` elements copied
//! verbatim, and a flag of at least 0x80 marks a repeat run: one element that
//! is replicated `(flag - 0x80) + 3` times.  The inverted convention swaps
//! the two meanings of the high bit.  An element is one byte or one
//! little-endian halfword.

use vstd::prelude::*;

verus! {

use crate::CodecError;
use crate::header::spec_header;
use crate::header::spec_header_size;
use crate::header::lemma_header_size;
use crate::header::make_header;
use crate::header::read_header_size;

/// Format tag of the firmware's run-length coded stream.
pub const RLE_TAG: u8 = 0x30;

/// `n` copies of the element `e`, laid end to end.
pub open spec fn spec_repeat(e: Seq<u8>, n: int) -> Seq<u8>
    decreases n,
{
    if n <= 0 {
        Seq::empty()
    } else {
        e + spec_repeat(e, n - 1)
    }
}

/// The length of `n` copies of `e`.
pub proof fn lemma_repeat_len(e: Seq<u8>, n: int)
    requires
        n >= 0,
    ensures
        spec_repeat(e, n).len() == n * e.len(),
    decreases n,
{
    if n > 0 {
        lemma_repeat_len(e, n - 1);
        let l = e.len() as int;
        assert(n * l == l + (n - 1) * l) by (nonlinear_arith);
    } else {
        let l = e.len() as int;
        assert(n * l == 0) by (nonlinear_arith)
            requires n == 0;
    }
}

/// One more copy can be appended at the back as well as at the front.
pub proof fn lemma_repeat_push(e: Seq<u8>, n: int)
    requires
        n >= 0,
    ensures
        spec_repeat(e, n + 1) == spec_repeat(e, n) + e,
    decreases n,
{
    if n == 0 {
        assert(spec_repeat(e, 1) =~= spec_repeat(e, 0) + e);
    } else {
        lemma_repeat_push(e, n - 1);
        assert(e + (spec_repeat(e, n - 1) + e) =~= (e + spec_repeat(e, n - 1)) + e);
    }
}

/// A periodic span of `n` elements is `n` copies of its first element.
pub proof fn lemma_periodic_repeat(d: Seq<u8>, pos: int, w: int, n: int)
    requires
        1 <= w,
        0 <= pos,
        0 <= n,
        pos + n * w <= d.len(),
        forall|j: int| pos + w <= j < pos + n * w ==> #[trigger] d[j] == d[j - w],
    ensures
        spec_repeat(d.subrange(pos, pos + w), n) == d.subrange(pos, pos + n * w),
    decreases n,
{
    let e = d.subrange(pos, pos + w);
    if n == 0 {
        assert(n * w == 0) by (nonlinear_arith)
            requires n == 0;
        assert(spec_repeat(e, 0) =~= d.subrange(pos, pos));
    } else {
        assert((n - 1) * w == n * w - w) by (nonlinear_arith);
        assert(0 <= (n - 1) * w) by (nonlinear_arith)
            requires n >= 1, w >= 1;
        assert((pos + w) + (n - 1) * w == pos + n * w);
        lemma_periodic_repeat(d, pos + w, w, n - 1);
        let e1 = d.subrange(pos + w, pos + w + w);
        if n >= 2 {
            assert(2 * w <= n * w) by (nonlinear_arith)
                requires n >= 2, 1 <= w;
            assert forall|k: int| 0 <= k < w implies e[k] == e1[k] by {
                assert(d[pos + w + k] == d[pos + w + k - w]);
            }
            assert(e =~= e1);
        }
        assert(spec_repeat(e, n - 1) == d.subrange(pos + w, pos + n * w)) by {
            if n >= 2 {
                assert(spec_repeat(e1, n - 1) == d.subrange(pos + w, pos + n * w));
            } else {
                assert(spec_repeat(e, 0) =~= d.subrange(pos + w, pos + w));
            }
        }
        lemma_repeat_len(e, n - 1);
        assert(e + spec_repeat(e, n - 1) =~= d.subrange(pos, pos + n * w));
    }
}

/// Whether a flag byte marks a literal run under the given convention.
pub open spec fn spec_is_literal(flag: u8, inverted: bool) -> bool {
    if inverted {
        flag >= 0x80
    } else {
        flag < 0x80
    }
}

/// What decoding the run-length payload `p` from byte `i` onward yields,
/// once `out` has already been produced, for a stream that declares `size`
/// output bytes.  `w` is the element width and `inverted` the flag
/// convention.
pub open spec fn spec_rle_decode(
    p: Seq<u8>,
    i: int,
    out: Seq<u8>,
    size: int,
    w: int,
    inverted: bool,
) -> Result<Seq<u8>, CodecError>
    recommends
        1 <= w <= 2,
    decreases p.len() - i,
{
    if !(w == 1 || w == 2) {
        Err(CodecError::InvalidLength)
    } else if out.len() >= size {
        Ok(out)
    } else if i < 0 || i >= p.len() {
        Err(CodecError::UnexpectedEof)
    } else {
        let flag = p[i];
        let f7 = (flag % 0x80) as int;
        if spec_is_literal(flag, inverted) {
            let nbytes = (f7 + 1) * w;
            if out.len() + nbytes > size {
                Err(CodecError::InvalidRun)
            } else if i + 1 + nbytes > p.len() {
                Err(CodecError::UnexpectedEof)
            } else {
                spec_rle_decode(
                    p,
                    i + 1 + nbytes,
                    out + p.subrange(i + 1, i + 1 + nbytes),
                    size,
                    w,
                    inverted,
                )
            }
        } else {
            let n = f7 + 3;
            if out.len() + n * w > size {
                Err(CodecError::InvalidRun)
            } else if i + 1 + w > p.len() {
                Err(CodecError::UnexpectedEof)
            } else {
                spec_rle_decode(
                    p,
                    i + 1 + w,
                    out + spec_repeat(p.subrange(i + 1, i + 1 + w), n),
                    size,
                    w,
                    inverted,
                )
            }
        }
    }
}

/// What decoding a whole run-length stream yields: header checks, the
/// element-width alignment check, then the run loop.
pub open spec fn spec_rle_stream(wire: Seq<u8>, tag: u8, w: int, inverted: bool) -> Result<
    Seq<u8>,
    CodecError,
> {
    if wire.len() < 4 {
        Err(CodecError::UnexpectedEof)
    } else if wire[0] != tag {
        Err(CodecError::InvalidHeader)
    } else {
        let size = spec_header_size(wire);
        if size % w != 0 {
            Err(CodecError::InvalidLength)
        } else {
            spec_rle_decode(wire.skip(4), 0, Seq::empty(), size, w, inverted)
        }
    }
}

/// How far the bytes at `pos` keep repeating with period `w`: the first
/// index `j`, from `start` up to `lim`, at which a byte differs from the
/// byte one element earlier.
pub open spec fn spec_run_scan(d: Seq<u8>, pos: int, w: int, start: int, lim: int) -> int
    decreases lim - start,
{
    if start >= lim || d[pos + start] != d[pos + start - w] {
        start
    } else {
        spec_run_scan(d, pos, w, start + 1, lim)
    }
}

/// The number of consecutive elements at byte `pos` equal to the first one,
/// capped at `cap` elements and at the end of the input.
pub open spec fn spec_run_elems(d: Seq<u8>, pos: int, w: int, cap: int) -> int {
    let rem = d.len() - pos;
    let lim = if cap * w <= rem {
        cap * w
    } else {
        rem
    };
    spec_run_scan(d, pos, w, w, lim) / w
}

/// The number of elements the next literal run covers, counting from
/// element `l`: the scan stops at 128 elements, at the end of the input,
/// or where a repeat run of three identical elements begins.
pub open spec fn spec_lit_scan(d: Seq<u8>, pos: int, w: int, l: int) -> int
    decreases 128 - l,
{
    if l >= 128 || pos + l * w + w > d.len() {
        l
    } else if spec_run_elems(d, pos + l * w, w, 3) >= 3 {
        l
    } else {
        spec_lit_scan(d, pos, w, l + 1)
    }
}

/// The number of elements of the next literal run at byte `pos`.
pub open spec fn spec_lit_elems(d: Seq<u8>, pos: int, w: int) -> int {
    spec_lit_scan(d, pos, w, 1)
}

/// The payload the greedy encoder produces from byte `pos` onward: a repeat
/// run wherever three or more identical elements follow (up to 130), a
/// literal run of up to 128 elements otherwise.  The arithmetic guards only
/// keep the function total; the encoder's proof shows they always hold.
pub open spec fn spec_rle_payload(d: Seq<u8>, pos: int, w: int, inverted: bool) -> Seq<u8>
    decreases d.len() - pos,
{
    if !(w == 1 || w == 2) || pos < 0 || pos + w > d.len() {
        Seq::empty()
    } else {
        let n = spec_run_elems(d, pos, w, 130);
        if 3 <= n && 3 <= n * w && pos + n * w <= d.len() {
            let flag: u8 = if inverted {
                (n - 3) as u8
            } else {
                (0x80 + (n - 3)) as u8
            };
            seq![flag] + d.subrange(pos, pos + w) + spec_rle_payload(d, pos + n * w, w, inverted)
        } else {
            let l = spec_lit_elems(d, pos, w);
            if 1 <= l && 1 <= l * w && pos + l * w <= d.len() {
                let flag: u8 = if inverted {
                    (0x80 + (l - 1)) as u8
                } else {
                    (l - 1) as u8
                };
                seq![flag] + d.subrange(pos, pos + l * w) + spec_rle_payload(
                    d,
                    pos + l * w,
                    w,
                    inverted,
                )
            } else {
                Seq::empty()
            }
        }
    }
}

/// Decodes a run-length stream of the given tag, element width and flag
/// convention.  The result is exactly what the wire format promises.
pub fn rle_decode_stream(wire: &Vec<u8>, tag: u8, w: usize, inverted: bool) -> (r: Result<
    Vec<u8>,
    CodecError,
>)
    requires
        w == 1 || w == 2,
    ensures
        crate::res_view(r) == spec_rle_stream(wire@, tag, w as int, inverted),
{
    if wire.len() < 4 {
        return Err(CodecError::UnexpectedEof);
    }
    if wire[0] != tag {
        return Err(CodecError::InvalidHeader);
    }
    let size = read_header_size(wire);
    if size % w != 0 {
        return Err(CodecError::InvalidLength);
    }
    let ghost p = wire@.skip(4);
    let wlen = wire.len();
    let plen = wlen - 4;
    let mut out: Vec<u8> = Vec::new();
    let mut i: usize = 0;
    while out.len() < size
        invariant
            w == 1 || w == 2,
            size <= 0xFF_FFFF,
            wlen == wire@.len(),
            wlen == plen + 4,
            wire@[0] == tag,
            size == spec_header_size(wire@),
            size as int % (w as int) == 0,
            p == wire@.skip(4),
            p.len() == plen,
            i <= plen,
            out@.len() <= size,
            spec_rle_decode(p, 0, Seq::empty(), size as int, w as int, inverted)
                == spec_rle_decode(p, i as int, out@, size as int, w as int, inverted),
        decreases plen - i,
    {
        if i >= plen {
            return Err(CodecError::UnexpectedEof);
        }
        let flag = wire[4 + i];
        proof {
            assert(p[i as int] == wire@[4 + i]);
        }
        let f7 = (flag % 0x80) as usize;
        let is_lit = if inverted {
            flag >= 0x80
        } else {
            flag < 0x80
        };
        let ghost prev_out = out@;
        let ghost prev_i = i as int;
        if is_lit {
            let nbytes = (f7 + 1) * w;
            if out.len() + nbytes > size {
                return Err(CodecError::InvalidRun);
            }
            if nbytes + 1 > plen - i {
                return Err(CodecError::UnexpectedEof);
            }
            let mut k: usize = 0;
            while k < nbytes
                invariant
                    k <= nbytes,
                    i + 1 + nbytes <= plen,
                    wlen == wire@.len(),
                    wlen == plen + 4,
                    p == wire@.skip(4),
                    p.len() == plen,
                    out@ == prev_out + p.subrange(i as int + 1, i as int + 1 + k as int),
                decreases nbytes - k,
            {
                let b = wire[4 + i + 1 + k];
                proof {
                    assert(p[i + 1 + k] == wire@[4 + i + 1 + k]);
                    assert(prev_out + p.subrange(i as int + 1, i + 1 + k + 1) =~= (prev_out
                        + p.subrange(i as int + 1, i as int + 1 + k as int)).push(b));
                }
                out.push(b);
                k += 1;
            }
            i = i + 1 + nbytes;
        } else {
            let n = f7 + 3;
            let nbytes = n * w;
            if out.len() + nbytes > size {
                return Err(CodecError::InvalidRun);
            }
            if w + 1 > plen - i {
                return Err(CodecError::UnexpectedEof);
            }
            let ghost e = p.subrange(i as int + 1, i as int + 1 + w as int);
            let mut t: usize = 0;
            while t < n
                invariant
                    t <= n,
                    n <= 130,
                    w == 1 || w == 2,
                    i + 1 + w <= plen,
                    wlen == wire@.len(),
                    wlen == plen + 4,
                    p == wire@.skip(4),
                    p.len() == plen,
                    e == p.subrange(i as int + 1, i as int + 1 + w as int),
                    out@ == prev_out + spec_repeat(e, t as int),
                decreases n - t,
            {
                let b0 = wire[4 + i + 1];
                proof {
                    assert(p[i + 1] == wire@[4 + i + 1]);
                    lemma_repeat_push(e, t as int);
                    lemma_repeat_len(e, t as int);
                }
                out.push(b0);
                if w == 2 {
                    let b1 = wire[4 + i + 2];
                    proof {
                        assert(p[i + 2] == wire@[4 + i + 2]);
                    }
                    out.push(b1);
                }
                proof {
                    assert(prev_out + spec_repeat(e, t + 1) =~= out@);
                }
                t += 1;
            }
            proof {
                lemma_repeat_len(e, n as int);
            }
            i = i + 1 + w;
        }
        proof {
            assert(spec_rle_decode(p, prev_i, prev_out, size as int, w as int, inverted)
                == spec_rle_decode(p, i as int, out@, size as int, w as int, inverted));
        }
    }
    proof {
        assert(spec_rle_decode(p, i as int, out@, size as int, w as int, inverted) == Ok::<
            Seq<u8>,
            CodecError,
        >(out@));
    }
    Ok(out)
}

/// Counts how many consecutive elements, starting at byte `pos`, equal the
/// element there, up to `cap` elements.  The counted span repeats with
/// period `w`.
fn count_run(data: &Vec<u8>, pos: usize, w: usize, cap: usize) -> (n: usize)
    requires
        w == 1 || w == 2,
        pos + w <= data@.len(),
        (data@.len() - pos) as int % (w as int) == 0,
        1 <= cap <= 130,
    ensures
        1 <= n <= cap,
        pos + n * w <= data@.len(),
        n as int == spec_run_elems(data@, pos as int, w as int, cap as int),
        forall|j: int| pos + w <= j < pos + n * w ==> #[trigger] data@[j] == data@[j - w],
{
    let len = data.len();
    let rem = len - pos;
    let capb = cap * w;
    let lim = if capb <= rem {
        capb
    } else {
        rem
    };
    let mut j: usize = w;
    while j < lim && data[pos + j] == data[pos + j - w]
        invariant
            w == 1 || w == 2,
            w <= j <= lim,
            lim <= rem,
            len == data@.len(),
            rem == len - pos,
            pos + w <= len,
            lim <= cap * w,
            cap <= 130,
            lim as int == (if cap * w <= data@.len() - pos {
                (cap * w) as int
            } else {
                data@.len() - pos
            }),
            spec_run_scan(data@, pos as int, w as int, w as int, lim as int) == spec_run_scan(
                data@,
                pos as int,
                w as int,
                j as int,
                lim as int,
            ),
            forall|t: int| pos + w <= t < pos + j ==> #[trigger] data@[t] == data@[t - w],
        decreases lim - j,
    {
        j += 1;
    }
    proof {
        assert(spec_run_scan(data@, pos as int, w as int, j as int, lim as int) == j as int);
        assert(spec_run_elems(data@, pos as int, w as int, cap as int) == j as int / (w as int));
    }
    let n = j / w;
    proof {
        if w == 1 {
            assert(n == j);
        } else {
            assert(n == j / 2);
            assert(n * 2 <= j);
            assert(n >= 1);
            assert(2 * n <= j && j <= cap * 2 ==> n <= cap);
        }
        assert(pos + n * w <= pos + j);
    }
    n
}

/// The number of elements the next literal run should carry: at least one,
/// at most 128, and never past the end of the input.  The scan stops early
/// where a run of three identical elements begins, so that a repeat run can
/// take over there.
fn literal_len(data: &Vec<u8>, pos: usize, w: usize) -> (l: usize)
    requires
        w == 1 || w == 2,
        pos + w <= data@.len(),
        (data@.len() - pos) as int % (w as int) == 0,
    ensures
        1 <= l <= 128,
        pos + l * w <= data@.len(),
        l as int == spec_lit_elems(data@, pos as int, w as int),
{
    let len = data.len();
    let mut l: usize = 1;
    while l < 128 && l * w + w <= len - pos
        invariant
            w == 1 || w == 2,
            1 <= l <= 128,
            pos + l * w <= data@.len(),
            len == data@.len(),
            pos <= len,
            (data@.len() - pos) as int % (w as int) == 0,
            spec_lit_elems(data@, pos as int, w as int) == spec_lit_scan(
                data@,
                pos as int,
                w as int,
                l as int,
            ),
        decreases 128 - l,
    {
        let p2 = pos + l * w;
        proof {
            if w == 2 {
                assert((data@.len() - p2) as int % 2 == 0);
            }
        }
        let run = count_run(data, p2, w, 3);
        if run >= 3 {
            proof {
                assert(spec_lit_scan(data@, pos as int, w as int, l as int) == l as int);
            }
            return l;
        }
        proof {
            assert(spec_run_elems(data@, pos + l * w, w as int, 3) < 3);
            assert(spec_lit_scan(data@, pos as int, w as int, l as int) == spec_lit_scan(
                data@,
                pos as int,
                w as int,
                l as int + 1,
            ));
        }
        l += 1;
    }
    proof {
        assert(spec_lit_scan(data@, pos as int, w as int, l as int) == l as int);
    }
    l
}

/// Appending a repeat run to a partial payload advances the decoder over
/// that run, whatever bytes follow.
proof fn lemma_rle_step_repeat(
    prev: Seq<u8>,
    data: Seq<u8>,
    pos: int,
    n: int,
    size: int,
    w: int,
    inverted: bool,
    flag: u8,
)
    requires
        w == 1 || w == 2,
        size == data.len(),
        0 <= pos,
        pos + n * w <= size,
        3 <= n <= 130,
        !spec_is_literal(flag, inverted),
        (flag % 0x80) as int == n - 3,
        forall|j: int| pos + w <= j < pos + n * w ==> #[trigger] data[j] == data[j - w],
        forall|q: Seq<u8>|
            #[trigger] spec_rle_decode(prev + q, 0, Seq::empty(), size, w, inverted)
                == spec_rle_decode(prev + q, prev.len() as int, data.take(pos), size, w, inverted),
    ensures
        forall|q: Seq<u8>|
            #[trigger] spec_rle_decode(
                (prev + seq![flag] + data.subrange(pos, pos + w)) + q,
                0,
                Seq::empty(),
                size,
                w,
                inverted,
            ) == spec_rle_decode(
                (prev + seq![flag] + data.subrange(pos, pos + w)) + q,
                prev.len() + 1 + w,
                data.take(pos + n * w),
                size,
                w,
                inverted,
            ),
{
    let run = seq![flag] + data.subrange(pos, pos + w);
    let pl2 = prev + seq![flag] + data.subrange(pos, pos + w);
    lemma_periodic_repeat(data, pos, w, n);
    assert(data.take(pos) + data.subrange(pos, pos + n * w) =~= data.take(pos + n * w));
    assert forall|q: Seq<u8>|
        #[trigger] spec_rle_decode(pl2 + q, 0, Seq::empty(), size, w, inverted)
            == spec_rle_decode(pl2 + q, prev.len() + 1 + w, data.take(pos + n * w), size, w,
        inverted) by {
        let q2 = run + q;
        assert(pl2 + q =~= prev + q2);
        assert(spec_rle_decode(prev + q2, 0, Seq::empty(), size, w, inverted) == spec_rle_decode(
            prev + q2,
            prev.len() as int,
            data.take(pos),
            size,
            w,
            inverted,
        ));
        let s = pl2 + q;
        assert(s[prev.len() as int] == flag);
        assert(s.subrange(prev.len() as int + 1, prev.len() as int + 1 + w) =~= data.subrange(pos, pos + w));
        assert(data.take(pos).len() == pos);
        assert(spec_rle_decode(s, prev.len() as int, data.take(pos), size, w, inverted)
            == spec_rle_decode(s, prev.len() + 1 + w, data.take(pos) + spec_repeat(
            data.subrange(pos, pos + w),
            n,
        ), size, w, inverted));
    }
}

/// Appending a literal run to a partial payload advances the decoder over
/// that run, whatever bytes follow.
proof fn lemma_rle_step_literal(
    prev: Seq<u8>,
    data: Seq<u8>,
    pos: int,
    l: int,
    size: int,
    w: int,
    inverted: bool,
    flag: u8,
)
    requires
        w == 1 || w == 2,
        size == data.len(),
        0 <= pos,
        1 <= l <= 128,
        pos + l * w <= size,
        spec_is_literal(flag, inverted),
        (flag % 0x80) as int == l - 1,
        forall|q: Seq<u8>|
            #[trigger] spec_rle_decode(prev + q, 0, Seq::empty(), size, w, inverted)
                == spec_rle_decode(prev + q, prev.len() as int, data.take(pos), size, w, inverted),
    ensures
        forall|q: Seq<u8>|
            #[trigger] spec_rle_decode(
                (prev + seq![flag] + data.subrange(pos, pos + l * w)) + q,
                0,
                Seq::empty(),
                size,
                w,
                inverted,
            ) == spec_rle_decode(
                (prev + seq![flag] + data.subrange(pos, pos + l * w)) + q,
                prev.len() + 1 + l * w,
                data.take(pos + l * w),
                size,
                w,
                inverted,
            ),
{
    let run = seq![flag] + data.subrange(pos, pos + l * w);
    let pl2 = prev + seq![flag] + data.subrange(pos, pos + l * w);
    assert(data.take(pos) + data.subrange(pos, pos + l * w) =~= data.take(pos + l * w));
    assert(0 <= l * w) by (nonlinear_arith)
        requires l >= 1, w >= 1;
    assert forall|q: Seq<u8>|
        #[trigger] spec_rle_decode(pl2 + q, 0, Seq::empty(), size, w, inverted) == spec_rle_decode(
            pl2 + q,
            prev.len() + 1 + l * w,
            data.take(pos + l * w),
            size,
            w,
            inverted,
        ) by {
        let q2 = run + q;
        assert(pl2 + q =~= prev + q2);
        assert(spec_rle_decode(prev + q2, 0, Seq::empty(), size, w, inverted) == spec_rle_decode(
            prev + q2,
            prev.len() as int,
            data.take(pos),
            size,
            w,
            inverted,
        ));
        let s = pl2 + q;
        assert(s[prev.len() as int] == flag);
        assert(s.subrange(prev.len() as int + 1, prev.len() as int + 1 + l * w) =~= data.subrange(
            pos,
            pos + l * w,
        ));
        assert(data.take(pos).len() == pos);
        assert(((flag % 0x80) as int + 1) * w == l * w);
        assert(spec_rle_decode(s, prev.len() as int, data.take(pos), size, w, inverted)
            == spec_rle_decode(s, prev.len() + 1 + l * w, data.take(pos) + data.subrange(
            pos,
            pos + l * w,
        ), size, w, inverted));
    }
}

/// Encodes `data` as a run-length stream with the given tag, element width
/// and flag convention: greedy repeat runs of three or more identical
/// elements (up to 130), literal runs of up to 128 elements otherwise.  An
/// input that is not a whole number of elements is rejected; a successful
/// result is byte for byte the stream `spec_rle_payload` describes, and
/// decoding it restores `data` exactly.
#[verifier::rlimit(100)]
pub fn rle_encode_stream(data: &Vec<u8>, tag: u8, w: usize, inverted: bool) -> (r: Result<
    Vec<u8>,
    CodecError,
>)
    requires
        w == 1 || w == 2,
        data@.len() <= 0xFF_FFFF,
    ensures
        data@.len() as int % (w as int) != 0 ==> crate::res_view(r) == Err::<Seq<u8>, CodecError>(
            CodecError::InvalidLength,
        ),
        data@.len() as int % (w as int) == 0 ==> r is Ok,
        r is Ok ==> (r.unwrap()@.len() >= 4 && r.unwrap()@[0] == tag && spec_header_size(
            r.unwrap()@,
        ) == data@.len() && spec_rle_stream(r.unwrap()@, tag, w as int, inverted) == Ok::<
            Seq<u8>,
            CodecError,
        >(data@)),
        r is Ok ==> r.unwrap()@ == spec_header(tag, data@.len() as int) + spec_rle_payload(
            data@,
            0,
            w as int,
            inverted,
        ),
{
    let size = data.len();
    if size % w != 0 {
        return Err(CodecError::InvalidLength);
    }
    let mut pl: Vec<u8> = Vec::new();
    let mut pos: usize = 0;
    proof {
        assert(data@.take(0) =~= Seq::<u8>::empty());
        assert(Seq::<u8>::empty() + spec_rle_payload(data@, 0, w as int, inverted)
            =~= spec_rle_payload(data@, 0, w as int, inverted));
    }
    while pos < size
        invariant
            w == 1 || w == 2,
            size == data@.len(),
            size <= 0xFF_FFFF,
            size as int % (w as int) == 0,
            pos <= size,
            pos as int % (w as int) == 0,
            spec_rle_payload(data@, 0, w as int, inverted) == pl@ + spec_rle_payload(
                data@,
                pos as int,
                w as int,
                inverted,
            ),
            forall|q: Seq<u8>|
                #[trigger] spec_rle_decode(
                    pl@ + q,
                    0,
                    Seq::empty(),
                    size as int,
                    w as int,
                    inverted,
                ) == spec_rle_decode(
                    pl@ + q,
                    pl@.len() as int,
                    data@.take(pos as int),
                    size as int,
                    w as int,
                    inverted,
                ),
        decreases size - pos,
    {
        let ghost prev_pl = pl@;
        let ghost prev_pos = pos as int;
        proof {
            if w == 2 {
                assert(pos + 2 <= size);
            }
        }
        let n = count_run(data, pos, w, 130);
        if n >= 3 {
            let flag: u8 = if inverted {
                (n - 3) as u8
            } else {
                (0x80 + (n - 3)) as u8
            };
            pl.push(flag);
            pl.push(data[pos]);
            if w == 2 {
                pl.push(data[pos + 1]);
            }
            pos = pos + n * w;
            proof {
                assert(pl@ =~= prev_pl + seq![flag] + data@.subrange(prev_pos, prev_pos + w as int));
                lemma_rle_step_repeat(prev_pl, data@, prev_pos, n as int, size as int, w as int,
                    inverted, flag);
                assert(pl@.len() == prev_pl.len() + 1 + w);
                if w == 2 {
                    assert(pos as int % 2 == 0);
                    assert(3 <= (n as int) * (w as int));
                } else {
                    assert(3 <= (n as int) * (w as int));
                }
                assert(spec_rle_payload(data@, prev_pos, w as int, inverted) == (seq![flag]
                    + data@.subrange(prev_pos, prev_pos + w as int)) + spec_rle_payload(
                    data@,
                    pos as int,
                    w as int,
                    inverted,
                ));
                assert(pl@ + spec_rle_payload(data@, pos as int, w as int, inverted) =~= prev_pl
                    + spec_rle_payload(data@, prev_pos, w as int, inverted));
            }
        } else {
            let l = literal_len(data, pos, w);
            let nb = l * w;
            let flag: u8 = if inverted {
                (0x80 + (l - 1)) as u8
            } else {
                (l - 1) as u8
            };
            pl.push(flag);
            let ghost mid_pl = pl@;
            let dlen = data.len();
            let mut k: usize = 0;
            while k < nb
                invariant
                    k <= nb,
                    dlen == data@.len(),
                    pos + nb <= dlen,
                    mid_pl == prev_pl.push(flag),
                    pl@ == mid_pl + data@.subrange(pos as int, pos as int + k as int),
                decreases nb - k,
            {
                let b = data[pos + k];
                proof {
                    assert(mid_pl + data@.subrange(pos as int, pos + k + 1) =~= (mid_pl
                        + data@.subrange(pos as int, pos as int + k as int)).push(b));
                }
                pl.push(b);
                k += 1;
            }
            pos = pos + nb;
            proof {
                assert(nb == (l as int) * (w as int));
                assert(pl@ =~= prev_pl + seq![flag] + data@.subrange(prev_pos, prev_pos + nb));
                lemma_rle_step_literal(prev_pl, data@, prev_pos, l as int, size as int, w as int,
                    inverted, flag);
                assert(pl@.len() == prev_pl.len() + 1 + nb);
                if w == 2 {
                    assert(pos as int % 2 == 0);
                }
                assert(1 <= nb);
                assert(spec_rle_payload(data@, prev_pos, w as int, inverted) == (seq![flag]
                    + data@.subrange(prev_pos, prev_pos + nb)) + spec_rle_payload(
                    data@,
                    pos as int,
                    w as int,
                    inverted,
                ));
                assert(pl@ + spec_rle_payload(data@, pos as int, w as int, inverted) =~= prev_pl
                    + spec_rle_payload(data@, prev_pos, w as int, inverted));
            }
        }
    }
    let ghost plv = pl@;
    let mut out = make_header(tag, size);
    let ghost h = out@;
    out.append(&mut pl);
    proof {
        assert(plv + Seq::<u8>::empty() =~= plv);
        assert(spec_rle_decode(plv + Seq::<u8>::empty(), 0, Seq::empty(), size as int, w as int,
            inverted) == spec_rle_decode(plv + Seq::<u8>::empty(), plv.len() as int,
            data@.take(size as int), size as int, w as int, inverted));
        assert(data@.take(size as int) =~= data@);
        assert(spec_rle_decode(plv, plv.len() as int, data@, size as int, w as int, inverted)
            == Ok::<Seq<u8>, CodecError>(data@));
        lemma_header_size(tag, size as int, plv);
        assert(out@ == h + plv);
        assert(out@.skip(4) =~= plv);
        assert(spec_rle_payload(data@, size as int, w as int, inverted) =~= Seq::<u8>::empty());
        assert(plv + Seq::<u8>::empty() =~= plv);
        assert(plv == spec_rle_payload(data@, 0, w as int, inverted));
    }
    Ok(out)
}

/// Compresses `data` into the firmware's run-length stream: byte for byte
/// the greedy encoding `spec_rle_payload` describes.  Decoding the result
/// restores `data` exactly.
pub fn compress_rle(data: &Vec<u8>) -> (r: Result<Vec<u8>, CodecError>)
    requires
        data@.len() <= 0xFF_FFFF,
    ensures
        r is Ok,
        r.unwrap()@.len() >= 4 && r.unwrap()@[0] == RLE_TAG,
        spec_header_size(r.unwrap()@) == data@.len(),
        spec_rle_stream(r.unwrap()@, RLE_TAG, 1, false) == Ok::<Seq<u8>, CodecError>(data@),
        r.unwrap()@ == spec_header(RLE_TAG, data@.len() as int) + spec_rle_payload(
            data@,
            0,
            1,
            false,
        ),
{
    rle_encode_stream(data, RLE_TAG, 1, false)
}

/// Decodes a firmware run-length stream.
pub fn decompress_rle(wire: &Vec<u8>) -> (r: Result<Vec<u8>, CodecError>)
    ensures
        crate::res_view(r) == spec_rle_stream(wire@, RLE_TAG, 1, false),
{
    rle_decode_stream(wire, RLE_TAG, 1, false)
}

} // verus!
