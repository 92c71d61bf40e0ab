//! Bit-level vocabulary shared by the packed vectors: how a machine word maps
//! to a sequence of bits, and how a sequence of bits maps to a number.

use vstd::arithmetic::power2::{lemma2_to64, lemma_pow2_pos, lemma_pow2_unfold, pow2};
use vstd::prelude::*;

verus! {

/// Bit `k` of `x`, counted from the least significant end.
pub open spec fn low_bit(x: u32, k: u32) -> bool {
    (x >> k) & 1u32 == 1u32
}

/// Bit `k` of `x`, counted from the most significant end.
pub open spec fn word_bit(x: u32, k: u32) -> bool {
    (x >> ((31 - k) as u32)) & 1u32 == 1u32
}

/// The word whose bits `i .. i + r` (most significant first) are set and
/// whose other bits are clear.
pub open spec fn mask_of(i: u32, r: u32) -> u32 {
    if r == 0 {
        0u32
    } else if r == 32 {
        !0u32
    } else {
        ((!0u32) << ((32 - r) as u32)) >> i
    }
}

/// The number that a sequence of bits spells, most significant bit first.
pub open spec fn bits_value(s: Seq<bool>) -> nat
    decreases s.len(),
{
    if s.len() == 0 {
        0
    } else {
        2 * bits_value(s.drop_last()) + if s.last() {
            1nat
        } else {
            0nat
        }
    }
}

/// The `w` low bits of `v`, most significant first.
pub open spec fn value_bits(v: nat, w: nat) -> Seq<bool>
    decreases w,
{
    if w == 0 {
        Seq::empty()
    } else {
        value_bits(v / 2, (w - 1) as nat).push(v % 2 == 1)
    }
}

/// How many of the bits of `s` are set.
pub open spec fn count_set(s: Seq<bool>) -> nat
    decreases s.len(),
{
    if s.len() == 0 {
        0
    } else {
        count_set(s.drop_last()) + if s.last() {
            1nat
        } else {
            0nat
        }
    }
}

/// How many of the bits of `s` equal `b`.
pub open spec fn count_bit(s: Seq<bool>, b: bool) -> nat {
    if b {
        count_set(s)
    } else {
        (s.len() - count_set(s)) as nat
    }
}

/// How many bits of the word `x` are set.
pub open spec fn popcount(x: nat) -> nat
    decreases x,
{
    if x == 0 {
        0
    } else {
        x % 2 + popcount(x / 2)
    }
}

/// `w` bits of a number are `w` bits.
pub proof fn lemma_value_bits_len(v: nat, w: nat)
    ensures
        value_bits(v, w).len() == w,
    decreases w,
{
    if w > 0 {
        lemma_value_bits_len(v / 2, (w - 1) as nat);
    }
}

/// Writing a number as `w` bits and reading it back gives the number modulo `2^w`.
pub proof fn lemma_bits_value_of_value_bits(v: nat, w: nat)
    ensures
        bits_value(value_bits(v, w)) == v % pow2(w),
    decreases w,
{
    lemma2_to64();
    if w > 0 {
        let s = value_bits(v, w);
        lemma_value_bits_len(v / 2, (w - 1) as nat);
        assert(s.drop_last() =~= value_bits(v / 2, (w - 1) as nat));
        lemma_bits_value_of_value_bits(v / 2, (w - 1) as nat);
        lemma_pow2_unfold(w);
        lemma_pow2_pos((w - 1) as nat);
        let p = pow2((w - 1) as nat) as int;
        // v % (2 p) == 2 * ((v / 2) % p) + v % 2
        vstd::arithmetic::div_mod::lemma_fundamental_div_mod(v as int, 2);
        vstd::arithmetic::div_mod::lemma_fundamental_div_mod(v as int / 2, p);
        vstd::arithmetic::div_mod::lemma_mod_bound(v as int / 2, p);
        let q = (v as int / 2) / p;
        let r = (v as int / 2) % p;
        assert(v == (2 * p) * q + (2 * r + v % 2)) by (nonlinear_arith)
            requires
                v == 2 * (v as int / 2) + v % 2,
                v as int / 2 == p * q + r,
        ;
        vstd::arithmetic::div_mod::lemma_fundamental_div_mod_converse(
            v as int,
            2 * p,
            q,
            2 * r + (v % 2) as int,
        );
    }
}

/// A sequence of bits spells a number below `2^len`, and writing that number
/// back as `len` bits gives the sequence.
pub proof fn lemma_value_bits_of_bits_value(s: Seq<bool>)
    ensures
        bits_value(s) < pow2(s.len()),
        value_bits(bits_value(s), s.len()) == s,
    decreases s.len(),
{
    lemma2_to64();
    if s.len() > 0 {
        lemma_value_bits_of_bits_value(s.drop_last());
        lemma_pow2_unfold(s.len());
        assert(value_bits(bits_value(s), s.len()) =~= s);
    }
}

/// The bits set in a concatenation are those set in its two parts.
pub proof fn lemma_count_set_concat(a: Seq<bool>, b: Seq<bool>)
    ensures
        count_set(a + b) == count_set(a) + count_set(b),
    decreases b.len(),
{
    if b.len() == 0 {
        assert(a + b =~= a);
    } else {
        assert((a + b).drop_last() =~= a + b.drop_last());
        lemma_count_set_concat(a, b.drop_last());
    }
}

/// No more bits are set than there are.
pub proof fn lemma_count_set_bound(s: Seq<bool>)
    ensures
        count_set(s) <= s.len(),
    decreases s.len(),
{
    if s.len() > 0 {
        lemma_count_set_bound(s.drop_last());
    }
}

/// The bits set in the first `k + 1` positions are those set in the first `k`, and position `k`.
pub proof fn lemma_count_set_take_step(s: Seq<bool>, k: int)
    requires
        0 <= k < s.len(),
    ensures
        count_set(s.take(k + 1)) == count_set(s.take(k)) + if s[k] {
            1nat
        } else {
            0nat
        },
{
    assert(s.take(k + 1).drop_last() =~= s.take(k));
}

/// The number of set bits among `w` low bits of `v` is the population count of `v mod 2^w`.
pub proof fn lemma_count_set_value_bits(v: nat, w: nat)
    requires
        v < pow2(w),
    ensures
        count_set(value_bits(v, w)) == popcount(v),
    decreases w,
{
    lemma2_to64();
    if w > 0 {
        lemma_pow2_unfold(w);
        lemma_value_bits_len(v / 2, (w - 1) as nat);
        assert(value_bits(v, w).drop_last() =~= value_bits(v / 2, (w - 1) as nat));
        lemma_count_set_value_bits(v / 2, (w - 1) as nat);
    }
}

/// The bits of half a word are the bits of the word, one place down.
proof fn lemma_low_bit_step(v: u32, k: u32)
    by (bit_vector)
    requires
        k < 31,
    ensures
        low_bit(v >> 1u32, k) == low_bit(v, (k + 1) as u32),
        low_bit(v, 0) == (v % 2 == 1),
        v >> 1u32 == v / 2,
{
}

/// Bit `j` of `value_bits(v, w)` is bit `w - 1 - j` of the word `v`.
pub proof fn lemma_value_bits_index(v: u32, w: nat, j: int)
    requires
        w <= 32,
        0 <= j < w,
    ensures
        value_bits(v as nat, w).len() == w,
        value_bits(v as nat, w)[j] == low_bit(v, (w - 1 - j) as u32),
    decreases w,
{
    lemma_value_bits_len(v as nat, w);
    lemma_value_bits_len(v as nat / 2, (w - 1) as nat);
    lemma_low_bit_step(v, if j < w - 1 { (w - 2 - j) as u32 } else { 0 });
    if j < w - 1 {
        lemma_value_bits_index(v >> 1u32, (w - 1) as nat, j);
    }
}

/// A sequence whose bits are those of the word `v` spells `v`.
pub proof fn lemma_bits_of_word(s: Seq<bool>, v: u32)
    requires
        s.len() <= 32,
        v < pow2(s.len()),
        forall|j: int| 0 <= j < s.len() ==> s[j] == low_bit(v, (s.len() - 1 - j) as u32),
    ensures
        s == value_bits(v as nat, s.len()),
        bits_value(s) == v,
{
    let w = s.len();
    assert forall|j: int| 0 <= j < w implies s[j] == value_bits(v as nat, w)[j] by {
        lemma_value_bits_index(v, w, j);
    }
    lemma_value_bits_len(v as nat, w);
    assert(s =~= value_bits(v as nat, w));
    lemma_bits_value_of_value_bits(v as nat, w);
    vstd::arithmetic::div_mod::lemma_small_mod(v as nat, pow2(w));
}

/// The mask of a run has exactly the bits of the run set.
pub proof fn lemma_mask_bits(i: u32, r: u32, k: u32)
    by (bit_vector)
    requires
        i + r <= 32,
        k < 32,
    ensures
        word_bit(mask_of(i, r), k) == (i <= k && k < i + r),
{
}

/// A word fits in `w` bits exactly if shifting it right by `w` leaves nothing.
pub proof fn lemma_fits_shift(v: u32, w: u64)
    requires
        w < 64,
    ensures
        (((v as u64) >> w) == 0) <==> v < pow2(w as nat),
{
    vstd::bits::lemma_u64_shr_is_div(v as u64, w);
    lemma_pow2_pos(w as nat);
    let p = pow2(w as nat) as int;
    if v < p {
        vstd::arithmetic::div_mod::lemma_basic_div(v as int, p);
    } else {
        vstd::arithmetic::div_mod::lemma_div_non_zero(v as int, p);
    }
}

/// The bits set before position `j` are those set before `i` and those set
/// in `i .. j`.
pub proof fn lemma_count_set_split(s: Seq<bool>, i: int, j: int)
    requires
        0 <= i <= j <= s.len(),
    ensures
        count_set(s.take(j)) == count_set(s.take(i)) + count_set(s.subrange(i, j)),
        count_set(s.take(i)) <= count_set(s.take(j)),
        count_set(s.subrange(i, j)) <= j - i,
{
    assert(s.take(j) =~= s.take(i) + s.subrange(i, j));
    lemma_count_set_concat(s.take(i), s.subrange(i, j));
    lemma_count_set_bound(s.subrange(i, j));
}

/// The bits equal to `b` before position `j` are those before `i` and those
/// in `i .. j`.
pub proof fn lemma_count_bit_split(s: Seq<bool>, b: bool, i: int, j: int)
    requires
        0 <= i <= j <= s.len(),
    ensures
        count_bit(s.take(j), b) == count_bit(s.take(i), b) + count_bit(s.subrange(i, j), b),
        count_bit(s.take(i), b) <= count_bit(s.take(j), b),
        count_bit(s.subrange(i, j), b) <= j - i,
        count_bit(s.take(i), b) <= i,
{
    lemma_count_set_split(s, i, j);
    lemma_count_set_bound(s.take(i));
}

/// One more position adds one to the count exactly if its bit equals `b`.
pub proof fn lemma_count_bit_step(s: Seq<bool>, b: bool, k: int)
    requires
        0 <= k < s.len(),
    ensures
        count_bit(s.take(k + 1), b) == count_bit(s.take(k), b) + if s[k] == b {
            1nat
        } else {
            0nat
        },
{
    lemma_count_set_take_step(s, k);
    lemma_count_set_bound(s.take(k));
}

/// The bits of a concatenation that equal `b` are those of its two parts.
pub proof fn lemma_count_bit_concat(a: Seq<bool>, b: Seq<bool>, x: bool)
    ensures
        count_bit(a + b, x) == count_bit(a, x) + count_bit(b, x),
{
    lemma_count_set_concat(a, b);
    lemma_count_set_bound(a);
    lemma_count_set_bound(b);
}

/// `u32::count_ones` of the standard library, which returns the number of
/// ones in the binary representation of `x`: the contract says so with
/// `popcount`, which adds up the binary digits of a number.
pub assume_specification[ u32::count_ones ](x: u32) -> (r: u32)
    ensures
        r == popcount(x as nat),
;

} // verus!
