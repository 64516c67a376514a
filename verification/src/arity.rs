//! Arity and mask arithmetic for variant lists.
//!
//! A list of `len` variants packs its tag into the low bits of a payload
//! address. The tag occupies the bits below `next_pow2(len)`, so the mask is
//! `next_pow2(len) - 1` and a payload address is usable exactly when it is a
//! multiple of `next_pow2(len)`.

use vstd::prelude::*;
use vstd::arithmetic::power2::{
    pow2, lemma_pow2_adds, lemma_pow2_pos, lemma_pow2_strictly_increases, lemma2_to64,
    lemma2_to64_rest,
};
use vstd::arithmetic::div_mod::{
    lemma_fundamental_div_mod, lemma_fundamental_div_mod_converse, lemma_mod_multiples_basic,
    lemma_small_mod,
};

verus! {

/// Smallest power of two that is at least `n` (and at least 1, also for `n == 0`).
pub open spec fn next_pow2(n: nat) -> nat
    decreases n,
{
    if n <= 1 {
        1
    } else {
        2 * next_pow2(((n + 1) / 2) as nat)
    }
}

/// The exponent of `next_pow2(n)`.
pub open spec fn next_pow2_exp(n: nat) -> nat
    decreases n,
{
    if n <= 1 {
        0
    } else {
        1 + next_pow2_exp(((n + 1) / 2) as nat)
    }
}

/// The tag mask for a variant list of arity `len`: the low bits of a payload
/// address that the tag occupies.
pub open spec fn mask_spec(len: nat) -> nat {
    (next_pow2(len) - 1) as nat
}

/// `next_pow2(n)` really is the power of two with exponent `next_pow2_exp(n)`.
pub proof fn lemma_next_pow2_is_pow2(n: nat)
    ensures
        next_pow2(n) == pow2(next_pow2_exp(n)),
    decreases n,
{
    if n <= 1 {
        assert(pow2(0) == 1) by {
            lemma2_to64();
        }
    } else {
        let m = ((n + 1) / 2) as nat;
        lemma_next_pow2_is_pow2(m);
        lemma_pow2_adds(1, next_pow2_exp(m));
        assert(pow2(1) == 2) by {
            lemma2_to64();
        }
    }
}

/// `next_pow2(n)` is at least `n` and at least 1.
pub proof fn lemma_next_pow2_ge(n: nat)
    ensures
        next_pow2(n) >= n,
        next_pow2(n) >= 1,
    decreases n,
{
    if n > 1 {
        lemma_next_pow2_ge(((n + 1) / 2) as nat);
    }
}

/// `next_pow2(n)` is the least power of two that is at least `n`.
pub proof fn lemma_next_pow2_min(n: nat, k: nat)
    requires
        n <= pow2(k),
    ensures
        next_pow2(n) <= pow2(k),
        next_pow2_exp(n) <= k,
    decreases n,
{
    lemma_next_pow2_is_pow2(n);
    if n <= 1 {
        lemma_pow2_pos(k);
        assert(pow2(0) == 1) by {
            lemma2_to64();
        }
        if next_pow2_exp(n) > k {
            lemma_pow2_strictly_increases(k, next_pow2_exp(n));
        }
    } else {
        assert(pow2(0) == 1) by {
            lemma2_to64();
        }
        if k == 0 {
            assert(false);
        }
        let k1 = (k - 1) as nat;
        lemma_pow2_adds(1, k1);
        assert(pow2(1) == 2) by {
            lemma2_to64();
        }
        let m = ((n + 1) / 2) as nat;
        assert(m <= pow2(k1));
        lemma_next_pow2_min(m, k1);
    }
}

/// `next_pow2` and its exponent are monotonic.
pub proof fn lemma_next_pow2_mono(a: nat, b: nat)
    requires
        a <= b,
    ensures
        next_pow2(a) <= next_pow2(b),
        next_pow2_exp(a) <= next_pow2_exp(b),
{
    lemma_next_pow2_ge(b);
    lemma_next_pow2_is_pow2(b);
    lemma_next_pow2_min(a, next_pow2_exp(b));
    lemma_next_pow2_is_pow2(a);
}

/// A smaller power of two divides a larger one.
pub proof fn lemma_pow2_divides(k1: nat, k2: nat)
    requires
        k1 <= k2,
    ensures
        pow2(k2) % pow2(k1) == 0,
{
    lemma_pow2_adds((k2 - k1) as nat, k1);
    lemma_pow2_pos(k1);
    lemma_mod_multiples_basic(pow2((k2 - k1) as nat) as int, pow2(k1) as int);
}

/// Packing a tag into an aligned address: the low bits recover exactly the tag.
pub proof fn lemma_pack_unpack(addr: nat, tag: nat, m: nat)
    requires
        0 < m,
        addr % m == 0,
        tag < m,
    ensures
        (addr + tag) % m == tag,
{
    lemma_fundamental_div_mod(addr as int, m as int);
    let q = addr as int / m as int;
    assert(addr as int == (m as int) * q);
    assert((m as int) * q == q * (m as int)) by (nonlinear_arith);
    assert(addr + tag == q * (m as int) + tag);
    lemma_fundamental_div_mod_converse((addr + tag) as int, m as int, q, tag as int);
}

/// An address that is a multiple of `m` and strictly below a bound that is
/// also a multiple of `m` leaves headroom for a whole block of `m`.
pub proof fn lemma_aligned_headroom(addr: nat, m: nat, bound: nat)
    requires
        0 < m,
        addr % m == 0,
        bound % m == 0,
        addr < bound,
    ensures
        addr + m <= bound,
{
    lemma_fundamental_div_mod(addr as int, m as int);
    lemma_fundamental_div_mod(bound as int, m as int);
    let q = addr as int / m as int;
    let d = bound as int / m as int;
    assert(m as int * q < m as int * d);
    assert(q < d) by (nonlinear_arith)
        requires
            m as int * q < m as int * d,
            m as int > 0,
    ;
    assert(m as int * q + m as int <= m as int * d) by (nonlinear_arith)
        requires
            q + 1 <= d,
            m as int > 0,
    ;
}

/// An address aligned for a larger arity is aligned for a smaller one.
pub proof fn lemma_align_transfers(addr: nat, small: nat, large: nat)
    requires
        small <= large,
        addr % next_pow2(large) == 0,
    ensures
        addr % next_pow2(small) == 0,
{
    lemma_next_pow2_mono(small, large);
    lemma_next_pow2_is_pow2(small);
    lemma_next_pow2_is_pow2(large);
    lemma_next_pow2_ge(small);
    lemma_next_pow2_ge(large);
    let a = next_pow2(small);
    let b = next_pow2(large);
    lemma_pow2_adds((next_pow2_exp(large) - next_pow2_exp(small)) as nat, next_pow2_exp(small));
    let c = pow2((next_pow2_exp(large) - next_pow2_exp(small)) as nat);
    assert(b == c * a);
    lemma_fundamental_div_mod(addr as int, b as int);
    let q = addr as int / b as int;
    assert(addr as int == (c * a) as int * q);
    assert((c as int * a as int) * q == (c as int * q) * a as int) by (nonlinear_arith);
    lemma_mod_multiples_basic(c as int * q, a as int);
}

/// Facts about the mask for any arity that fits in a byte.
pub proof fn lemma_mask_facts(len: nat)
    requires
        len <= 255,
    ensures
        next_pow2(len) == mask_spec(len) + 1,
        1 <= next_pow2(len) <= 256,
        len <= next_pow2(len),
        pow2(64) % next_pow2(len) == 0,
{
    lemma_next_pow2_ge(len);
    lemma_next_pow2_is_pow2(len);
    assert(pow2(8) == 256) by {
        lemma2_to64();
    }
    lemma_next_pow2_min(len, 8);
    lemma_pow2_divides(next_pow2_exp(len), 64);
}

/// The numeric value of 2^64: one more than `u64::MAX`.
pub proof fn lemma_pow2_64_val()
    ensures
        pow2(64) == 0x1_0000_0000_0000_0000,
{
    lemma2_to64_rest();
}

/// Tags below the arity fit under the mask.
pub proof fn lemma_tag_fits(len: nat, tag: nat)
    requires
        tag < len,
        len <= 255,
    ensures
        tag <= mask_spec(len),
        tag % next_pow2(len) == tag,
{
    lemma_mask_facts(len);
    lemma_small_mod(tag, next_pow2(len));
}

/// The tag mask for arity `len`: `next_pow2(len) - 1`, computed by doubling.
pub fn mask_for_len(len: u8) -> (m: u64)
    ensures
        m as nat == mask_spec(len as nat),
        m <= 255,
{
    let mut p: u64 = 1;
    let ghost mut j: nat = 0;
    proof {
        assert(pow2(0) == 1) by {
            lemma2_to64();
        }
    }
    while p < len as u64
        invariant
            1 <= p,
            p <= 256,
            p == pow2(j),
            j == 0 || pow2((j - 1) as nat) < len as nat,
        decreases 2 * (len as int) - (p as int),
    {
        proof {
            lemma_pow2_adds(j, 1);
            assert(pow2(1) == 2 && pow2(7) == 128 && pow2(8) == 256) by {
                lemma2_to64();
            }
            // p is a power of two strictly below `len <= 255`, hence at most 128
            if j < 7 {
                lemma_pow2_strictly_increases(j, 7);
            } else if j > 8 {
                lemma_pow2_strictly_increases(8, j);
            }
            assert(p <= 128);
        }
        p = p * 2;
        proof {
            j = j + 1;
        }
    }
    proof {
        lemma_next_pow2_is_pow2(len as nat);
        lemma_next_pow2_ge(len as nat);
        lemma_next_pow2_min(len as nat, j);
        let k = next_pow2_exp(len as nat);
        if k < j {
            // then p / 2 would already be a power of two at least `len`
            lemma_pow2_strictly_increases((j - 1) as nat, j);
            if k < j - 1 {
                lemma_pow2_strictly_increases(k, (j - 1) as nat);
            }
            assert(next_pow2(len as nat) <= pow2((j - 1) as nat));
            assert(false);
        }
    }
    p - 1
}

} // verus!
