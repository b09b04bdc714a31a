//! Bit-level arithmetic underlying the packed wire formats: selecting a bit
//! of an integer, and accumulating bits into flag bytes and bitstream bytes
//! most-significant-bit first.

use vstd::prelude::*;

verus! {

use vstd::arithmetic::power2::pow2;
use vstd::arithmetic::power2::lemma_pow2_unfold;
use vstd::arithmetic::power2::lemma_pow2_pos;
use vstd::arithmetic::power2::lemma2_to64;
use vstd::arithmetic::div_mod::lemma_div_denominator;

/// The bit of `v` that stands `e` places above the least significant one.
pub open spec fn bit_at(v: nat, e: nat) -> bool {
    v / pow2(e) % 2 == 1
}

/// Doubling a value and adding a fresh low bit shifts every old bit one
/// place up.
pub proof fn lemma_shift_up(v: nat, m: nat, e: nat)
    requires
        m < 2,
        e >= 1,
    ensures
        (2 * v + m) / pow2(e) == v / pow2((e - 1) as nat),
{
    lemma_pow2_unfold(e);
    let p = pow2((e - 1) as nat);
    lemma_pow2_pos((e - 1) as nat);
    assert(pow2(e) == 2 * p);
    lemma_div_denominator((2 * v + m) as int, 2, p as int);
    assert((2 * v + m) / 2 == v as int);
}

/// The freshly added low bit is recovered by `bit_at` at position zero.
pub proof fn lemma_new_low_bit(v: nat, m: nat)
    requires
        m < 2,
    ensures
        bit_at(2 * v + m, 0) == (m == 1),
{
    lemma2_to64();
    assert(pow2(0) == 1);
    assert((2 * v + m) / 1 == 2 * v + m);
    assert((2 * v + m) % 2 == m);
}

/// Shifting a value up by `s` places moves every bit `s` places up.
pub proof fn lemma_shift_up_many(v: nat, s: nat, e: nat)
    requires
        s <= e,
    ensures
        (v * pow2(s)) / pow2(e) == v / pow2((e - s) as nat),
    decreases s,
{
    if s == 0 {
        lemma2_to64();
        assert(pow2(0) == 1);
        assert(v * 1 == v);
    } else {
        lemma_pow2_unfold(s);
        let p = pow2((s - 1) as nat);
        assert(v * (2 * p) == 2 * (v * p)) by (nonlinear_arith);
        lemma_shift_up((v * p) as nat, 0, e);
        assert(2 * (v * p) + 0 == 2 * (v * p));
        lemma_shift_up_many(v, (s - 1) as nat, (e - 1) as nat);
    }
}

/// Powers of two as a byte, for reading one bit of a flag byte.
pub fn p2u8(e: u8) -> (r: u8)
    requires
        e < 8,
    ensures
        r as nat == pow2(e as nat),
        r >= 1,
{
    proof {
        lemma2_to64();
    }
    match e {
        0 => 1,
        1 => 2,
        2 => 4,
        3 => 8,
        4 => 16,
        5 => 32,
        6 => 64,
        _ => 128,
    }
}

} // verus!
