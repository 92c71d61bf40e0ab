//! Integer helpers: base-2 logarithms and rounding divisions.

use vstd::arithmetic::power2::{lemma2_to64, lemma_pow2_pos, lemma_pow2_unfold, pow2};
use vstd::bits::lemma_usize_shr_is_div;
use vstd::prelude::*;

verus! {

/// The least `k` with `x <= 2^k` (and `0` for `x == 0`).
pub open spec fn ceil_log2(x: nat) -> nat
    decreases x,
{
    if x <= 1 {
        0
    } else {
        1 + ceil_log2((x + 1) / 2)
    }
}

/// The greatest `k` with `2^k <= x` (and `0` for `x == 0`).
pub open spec fn floor_log2(x: nat) -> nat
    decreases x,
{
    if x <= 1 {
        0
    } else {
        1 + floor_log2(x / 2)
    }
}

/// `a / b`, rounded up.
pub open spec fn ceil_div(a: nat, b: nat) -> nat {
    ((a + b - 1) / (b as int)) as nat
}

/// `ceil_log2(x)` is the only exponent `k` with `2^(k-1) < x <= 2^k`.
pub proof fn lemma_ceil_log2_unique(x: nat, k: nat)
    requires
        1 <= x <= pow2(k),
        k > 0 ==> pow2((k - 1) as nat) < x,
    ensures
        ceil_log2(x) == k,
    decreases k,
{
    lemma2_to64();
    if k > 0 {
        lemma_pow2_unfold(k);
        lemma_pow2_pos((k - 1) as nat);
        if k > 1 {
            lemma_pow2_unfold((k - 1) as nat);
        }
        lemma_ceil_log2_unique((x + 1) / 2, (k - 1) as nat);
    }
}

/// `ceil_log2(x)` brackets `x` between two consecutive powers of two.
pub proof fn lemma_ceil_log2_bounds(x: nat)
    requires
        x >= 1,
    ensures
        x <= pow2(ceil_log2(x)),
        ceil_log2(x) > 0 ==> pow2((ceil_log2(x) - 1) as nat) < x,
    decreases x,
{
    lemma2_to64();
    if x > 1 {
        let y = (x + 1) / 2;
        lemma_ceil_log2_bounds(y);
        lemma_pow2_unfold(ceil_log2(x));
        if ceil_log2(y) > 0 {
            lemma_pow2_unfold(ceil_log2(y));
        }
    }
}

/// A larger argument never has a smaller `ceil_log2`.
pub proof fn lemma_ceil_log2_monotonic(x: nat, y: nat)
    requires
        x <= y,
    ensures
        ceil_log2(x) <= ceil_log2(y),
    decreases y,
{
    if x > 1 {
        lemma_ceil_log2_monotonic((x + 1) / 2, (y + 1) / 2);
    }
}

/// `floor_log2(x)` is the only exponent `k` with `2^k <= x < 2^(k+1)`.
pub proof fn lemma_floor_log2_unique(x: nat, k: nat)
    requires
        pow2(k) <= x < pow2(k + 1),
    ensures
        floor_log2(x) == k,
    decreases k,
{
    lemma2_to64();
    lemma_pow2_unfold(k + 1);
    if k > 0 {
        lemma_pow2_unfold(k);
        lemma_pow2_pos((k - 1) as nat);
        lemma_floor_log2_unique(x / 2, (k - 1) as nat);
    }
}

/// `ceil_div(a, b)` is the least `q` with `q * b >= a`.
pub proof fn lemma_ceil_div_bounds(a: nat, b: nat)
    requires
        b > 0,
    ensures
        ceil_div(a, b) * b >= a,
        a > 0 ==> (ceil_div(a, b) - 1) * b < a,
        a == 0 ==> ceil_div(a, b) == 0,
{
    let q = (a + b - 1) / (b as int);
    let r = (a + b - 1) % (b as int);
    vstd::arithmetic::div_mod::lemma_fundamental_div_mod(a + b - 1, b as int);
    vstd::arithmetic::div_mod::lemma_mod_bound(a + b - 1, b as int);
    assert(b * q == q * b) by (nonlinear_arith);
    assert((q - 1) * b == q * b - b) by (nonlinear_arith);
    if a == 0 {
        vstd::arithmetic::div_mod::lemma_small_div_converse(a + b - 1, b as int);
        vstd::arithmetic::div_mod::lemma_basic_div(b - 1, b as int);
    } else {
        vstd::arithmetic::div_mod::lemma_div_pos_is_pos(a + b - 1, b as int);
    }
}

/// Ceiling of the base-2 logarithm of `x`.
pub fn clog(x: usize) -> (v: usize)
    requires
        x >= 1,
    ensures
        v == ceil_log2(x as nat),
        v <= usize::BITS,
        x <= pow2(v as nat),
        v > 0 ==> pow2((v - 1) as nat) < x,
{
    let y: usize = x - 1;
    let mut v: usize = 0;
    while v < usize::BITS as usize && (y >> v) != 0
        invariant
            y == x - 1,
            v <= usize::BITS,
            v > 0 ==> pow2((v - 1) as nat) < x,
        decreases usize::BITS - v,
    {
        proof {
            lemma_usize_shr_is_div(y, v);
            lemma_pow2_pos(v as nat);
            if y < pow2(v as nat) {
                vstd::arithmetic::div_mod::lemma_basic_div(y as int, pow2(v as nat) as int);
            }
        }
        v += 1;
    }
    proof {
        if v < usize::BITS {
            lemma_usize_shr_is_div(y, v);
            lemma_pow2_pos(v as nat);
            if y >= pow2(v as nat) {
                vstd::arithmetic::div_mod::lemma_div_non_zero(y as int, pow2(v as nat) as int);
            }
        } else {
            lemma_usize_max_below_pow2();
        }
        lemma_ceil_log2_unique(x as nat, v as nat);
    }
    v
}

/// Floor of the base-2 logarithm of `x`.
pub fn flog(x: usize) -> (v: usize)
    requires
        x >= 1,
    ensures
        v == floor_log2(x as nat),
        v < usize::BITS,
        pow2(v as nat) <= x < pow2((v + 1) as nat),
{
    let mut v: usize = 0;
    while v < usize::BITS as usize && (x >> v) != 0
        invariant
            x >= 1,
            v <= usize::BITS,
            v > 0 ==> pow2((v - 1) as nat) <= x,
        decreases usize::BITS - v,
    {
        proof {
            lemma_usize_shr_is_div(x, v);
            lemma_pow2_pos(v as nat);
            if x < pow2(v as nat) {
                vstd::arithmetic::div_mod::lemma_basic_div(x as int, pow2(v as nat) as int);
            }
        }
        v += 1;
    }
    proof {
        if v < usize::BITS {
            lemma_usize_shr_is_div(x, v);
            lemma_pow2_pos(v as nat);
            if x >= pow2(v as nat) {
                vstd::arithmetic::div_mod::lemma_div_non_zero(x as int, pow2(v as nat) as int);
            }
            if v == 0 {
                assert(x >> 0usize == x) by (bit_vector);
            }
        } else {
            lemma_usize_max_below_pow2();
        }
        lemma_floor_log2_unique(x as nat, (v - 1) as nat);
    }
    v - 1
}

/// `a / b`, rounded up.
pub fn cdiv(a: usize, b: usize) -> (q: usize)
    requires
        b > 0,
    ensures
        q == ceil_div(a as nat, b as nat),
        q * b >= a,
        a > 0 ==> (q - 1) * b < a,
{
    proof {
        lemma_ceil_div_bounds(a as nat, b as nat);
        let q = a as int / b as int;
        vstd::arithmetic::div_mod::lemma_fundamental_div_mod(a as int, b as int);
        vstd::arithmetic::div_mod::lemma_mod_bound(a as int, b as int);
        assert(b * q == q * b) by (nonlinear_arith);
        if a % b == 0 {
            vstd::arithmetic::div_mod::lemma_fundamental_div_mod_converse(
                a + b - 1,
                b as int,
                q,
                b - 1,
            );
        } else {
            assert((q + 1) * b == q * b + b) by (nonlinear_arith);
            vstd::arithmetic::div_mod::lemma_fundamental_div_mod_converse(
                a + b - 1,
                b as int,
                q + 1,
                a % b - 1,
            );
            assert(q + 1 <= a) by (nonlinear_arith)
                requires
                    q * b + (a % b) == a,
                    a % b >= 1,
                    b >= 1,
                    q >= 0,
            ;
        }
    }
    if a % b == 0 {
        a / b
    } else {
        (a / b) + 1
    }
}

/// `x / 2`, rounded up.
pub fn cdiv_2(x: usize) -> (q: usize)
    ensures
        q == (x + 1) / 2,
{
    assert((x >> 1usize) + (x & 1usize) == (x + 1) / 2) by (bit_vector);
    (x >> 1) + (x & 1_usize)
}

/// `x / 2`, rounded down.
pub fn fdiv_2(x: usize) -> (q: usize)
    ensures
        q == x / 2,
{
    assert(x >> 1usize == x / 2) by (bit_vector);
    x >> 1
}

/// Every machine word is below two to the power of its width.
proof fn lemma_usize_max_below_pow2()
    ensures
        usize::MAX < pow2(usize::BITS as nat),
{
    lemma2_to64();
    vstd::arithmetic::power2::lemma2_to64_rest();
}

} // verus!
