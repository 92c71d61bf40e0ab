//! The mathematics of a level-wise wavelet tree: how the symbols of a text
//! are ordered on each level, and how counting bits on one level counts
//! symbols on the next.
//!
//! A text is given by the codes of its symbols. On the level with step `h`
//! (a power of two), the symbols are grouped by the quotient of their code by
//! `2 * h`, the groups in increasing order and each group in text order; the
//! bit of a symbol says whether the quotient of its code by `h` is odd.

use crate::bits::{count_bit, lemma_count_set_bound};
use vstd::arithmetic::div_mod::{lemma_div_denominator, lemma_fundamental_div_mod, lemma_mod_bound};
use vstd::prelude::*;

verus! {

/// How many of the first `i` codes have the quotient `p` by `d`.
pub open spec fn cnt_eq(codes: Seq<nat>, d: nat, p: nat, i: nat) -> nat
    decreases i,
{
    if i == 0 {
        0
    } else {
        cnt_eq(codes, d, p, (i - 1) as nat) + if codes[i - 1] / d == p {
            1nat
        } else {
            0nat
        }
    }
}

/// How many of the first `i` codes have a quotient by `d` that is less than `p`.
pub open spec fn cnt_lt(codes: Seq<nat>, d: nat, p: nat, i: nat) -> nat
    decreases i,
{
    if i == 0 {
        0
    } else {
        cnt_lt(codes, d, p, (i - 1) as nat) + if codes[i - 1] / d < p {
            1nat
        } else {
            0nat
        }
    }
}

/// Where symbol `i` of the text stands on the level whose groups are the
/// quotients by `d`.
pub open spec fn level_pos(codes: Seq<nat>, d: nat, i: int) -> nat {
    cnt_lt(codes, d, codes[i] / d, codes.len()) + cnt_eq(codes, d, codes[i] / d, i as nat)
}

/// `bits` is the level with step `h` of the text with these codes.
pub open spec fn level_ok(codes: Seq<nat>, h: nat, bits: Seq<bool>) -> bool {
    &&& bits.len() == codes.len()
    &&& forall|i: int|
        0 <= i < codes.len() ==> bits[#[trigger] level_pos(codes, 2 * h, i) as int] == ((codes[i]
            / h) % 2 == 1)
}

/// One for a set bit, zero for a clear one.
pub open spec fn bit_val(b: bool) -> nat {
    if b {
        1
    } else {
        0
    }
}

/// The quotient by `h` is twice the quotient by `2 * h`, plus the bit.
pub proof fn lemma_key_split(c: nat, h: nat)
    requires
        h >= 1,
    ensures
        (c / h) / 2 == c / (2 * h),
        c / h == 2 * (c / (2 * h)) + (c / h) % 2,
        0 <= (c / h) % 2 < 2,
{
    lemma_div_denominator(c as int, h as int, 2);
    lemma_fundamental_div_mod((c / h) as int, 2);
    lemma_mod_bound((c / h) as int, 2);
    assert(h * 2 == 2 * h);
}

/// Counting more codes, or up to a larger quotient, never counts fewer;
/// the codes below `p` and those at `p` are those below `p + 1`.
pub proof fn lemma_cnt_basics(codes: Seq<nat>, d: nat, p: nat, i: nat, j: nat)
    requires
        i <= j,
    ensures
        cnt_eq(codes, d, p, i) <= cnt_eq(codes, d, p, j),
        cnt_lt(codes, d, p, i) <= cnt_lt(codes, d, p, j),
        cnt_eq(codes, d, p, j) - cnt_eq(codes, d, p, i) <= j - i,
        cnt_lt(codes, d, p, j) + cnt_eq(codes, d, p, j) == cnt_lt(codes, d, p + 1, j),
        cnt_lt(codes, d, p + 1, j) <= j,
    decreases j,
{
    if j > 0 {
        if i < j {
            lemma_cnt_basics(codes, d, p, i, (j - 1) as nat);
        } else {
            lemma_cnt_basics(codes, d, p, (j - 1) as nat, (j - 1) as nat);
        }
    }
}

/// A larger quotient has at least as many codes below it.
pub proof fn lemma_cnt_lt_monotonic(codes: Seq<nat>, d: nat, p: nat, q: nat, i: nat)
    requires
        d >= 1,
        p <= q,
    ensures
        cnt_lt(codes, d, p, i) <= cnt_lt(codes, d, q, i),
    decreases i,
{
    if i > 0 {
        lemma_cnt_lt_monotonic(codes, d, p, q, (i - 1) as nat);
    }
}

/// No code has a quotient below zero.
pub proof fn lemma_cnt_lt_zero(codes: Seq<nat>, d: nat, i: nat)
    requires
        d >= 1,
    ensures
        cnt_lt(codes, d, 0, i) == 0,
    decreases i,
{
    if i > 0 {
        lemma_cnt_lt_zero(codes, d, (i - 1) as nat);
    }
}

/// Where every one of the first `i` codes has the quotient `p`, all of them count.
pub proof fn lemma_cnt_eq_all(codes: Seq<nat>, d: nat, p: nat, i: nat)
    requires
        i <= codes.len(),
        forall|j: int| 0 <= j < i ==> codes[j] / d == p,
    ensures
        cnt_eq(codes, d, p, i) == i,
    decreases i,
{
    if i > 0 {
        lemma_cnt_eq_all(codes, d, p, (i - 1) as nat);
    }
}

/// A code with another quotient among the first `i` is not counted.
pub proof fn lemma_cnt_eq_misses(codes: Seq<nat>, d: nat, p: nat, i: nat, j: int)
    requires
        0 <= j < i,
        codes[j] / d != p,
    ensures
        cnt_eq(codes, d, p, i) < i,
    decreases i,
{
    if j < i - 1 {
        lemma_cnt_eq_misses(codes, d, p, (i - 1) as nat, j);
    } else {
        lemma_cnt_basics(codes, d, p, 0, (i - 1) as nat);
    }
}

/// A group of one level splits into two groups of the next.
pub proof fn lemma_cnt_refine(codes: Seq<nat>, h: nat, p: nat, i: nat)
    requires
        h >= 1,
    ensures
        cnt_lt(codes, h, 2 * p, i) == cnt_lt(codes, 2 * h, p, i),
        cnt_lt(codes, h, 2 * p + 1, i) == cnt_lt(codes, 2 * h, p, i) + cnt_eq(codes, h, 2 * p, i),
        cnt_eq(codes, 2 * h, p, i) == cnt_eq(codes, h, 2 * p, i) + cnt_eq(codes, h, 2 * p + 1, i),
    decreases i,
{
    if i > 0 {
        lemma_cnt_refine(codes, h, p, (i - 1) as nat);
        lemma_key_split(codes[i - 1], h);
    }
}

/// A symbol's position on a level lies in its group, and so in the level.
pub proof fn lemma_level_pos_bound(codes: Seq<nat>, d: nat, i: int)
    requires
        d >= 1,
        0 <= i < codes.len(),
    ensures
        level_pos(codes, d, i) < cnt_lt(codes, d, codes[i] / d, codes.len()) + cnt_eq(
            codes,
            d,
            codes[i] / d,
            codes.len(),
        ) <= codes.len(),
{
    let p = codes[i] / d;
    lemma_cnt_basics(codes, d, p, (i + 1) as nat, codes.len());
    assert(cnt_eq(codes, d, p, (i + 1) as nat) == cnt_eq(codes, d, p, i as nat) + 1);
}

/// Two symbols never stand at one position of a level.
pub proof fn lemma_level_pos_injective(codes: Seq<nat>, d: nat, i: int, j: int)
    requires
        d >= 1,
        0 <= i < j < codes.len(),
    ensures
        level_pos(codes, d, i) != level_pos(codes, d, j),
{
    let p = codes[i] / d;
    let q = codes[j] / d;
    let n = codes.len();
    lemma_level_pos_bound(codes, d, i);
    lemma_level_pos_bound(codes, d, j);
    if p == q {
        lemma_cnt_basics(codes, d, p, (i + 1) as nat, j as nat);
        assert(cnt_eq(codes, d, p, (i + 1) as nat) == cnt_eq(codes, d, p, i as nat) + 1);
    } else if p < q {
        lemma_cnt_basics(codes, d, p, n, n);
        lemma_cnt_lt_monotonic(codes, d, p + 1, q, n);
    } else {
        lemma_cnt_basics(codes, d, q, n, n);
        lemma_cnt_lt_monotonic(codes, d, q + 1, p, n);
    }
}

/// Counting bits in the first part of a group on one level counts the
/// symbols of a group on the next level: among the first `i` symbols of the
/// text, those of group `p` occupy a run that starts where the group
/// starts, and the bits of that run that equal `b` are the symbols of the
/// group `2 * p + b` one level down.
pub proof fn lemma_level_counts(codes: Seq<nat>, h: nat, bits: Seq<bool>, p: nat, b: bool, i: nat)
    requires
        h >= 1,
        level_ok(codes, h, bits),
        i <= codes.len(),
    ensures
        cnt_lt(codes, 2 * h, p, codes.len()) + cnt_eq(codes, 2 * h, p, i) <= codes.len(),
        count_bit(
            bits.subrange(
                cnt_lt(codes, 2 * h, p, codes.len()) as int,
                (cnt_lt(codes, 2 * h, p, codes.len()) + cnt_eq(codes, 2 * h, p, i)) as int,
            ),
            b,
        ) == cnt_eq(codes, h, 2 * p + bit_val(b), i),
    decreases i,
{
    let n = codes.len();
    let l = cnt_lt(codes, 2 * h, p, n) as int;
    lemma_cnt_basics(codes, 2 * h, p, i, n);
    if i == 0 {
        assert(bits.subrange(l, l) =~= Seq::<bool>::empty());
    } else {
        let k = cnt_eq(codes, 2 * h, p, (i - 1) as nat);
        lemma_level_counts(codes, h, bits, p, b, (i - 1) as nat);
        let c = codes[i - 1];
        lemma_key_split(c, h);
        if c / (2 * h) == p {
            assert(level_pos(codes, 2 * h, i - 1) == l + k);
            let run = bits.subrange(l, l + k + 1);
            assert(run.drop_last() =~= bits.subrange(l, l + k));
            assert(run.last() == bits[l + k]);
            lemma_count_set_bound(run.drop_last());
        }
    }
}

/// Every position of a level is the position of a symbol.
pub proof fn lemma_level_pos_onto(codes: Seq<nat>, d: nat, q: int) -> (i: int)
    requires
        d >= 1,
        0 <= q < codes.len(),
    ensures
        0 <= i < codes.len(),
        level_pos(codes, d, i) == q,
{
    let n = codes.len() as int;
    let all = vstd::set_lib::set_int_range(0, n);
    let f = |i: int| level_pos(codes, d, i) as int;
    let image = all.map(f);
    vstd::set_lib::lemma_int_range(0, n);
    assert(vstd::relations::injective_on(f, all)) by {
        assert forall|a: int, b: int|
            all.contains(a) && all.contains(b) && #[trigger] f(a) == #[trigger] f(b) implies a
            == b by {
            if a < b {
                lemma_level_pos_injective(codes, d, a, b);
            } else if b < a {
                lemma_level_pos_injective(codes, d, b, a);
            }
        }
    }
    vstd::set_lib::lemma_map_size(all, image, f);
    assert(image.subset_of(all)) by {
        assert forall|p: int| image.contains(p) implies all.contains(p) by {
            let a = choose|a: int| all.contains(a) && f(a) == p;
            lemma_level_pos_bound(codes, d, a);
        }
    }
    vstd::set_lib::lemma_subset_equality(image, all);
    assert(all.contains(q));
    assert(image.contains(q));
    let i = choose|i: int| all.contains(i) && f(i) == q;
    i
}

/// A text has one level for each step: two sequences of bits that are
/// both the level are the same.
pub proof fn lemma_level_unique(codes: Seq<nat>, h: nat, a: Seq<bool>, b: Seq<bool>)
    requires
        h >= 1,
        level_ok(codes, h, a),
        level_ok(codes, h, b),
    ensures
        a == b,
{
    assert forall|q: int| 0 <= q < a.len() implies a[q] == b[q] by {
        let i = lemma_level_pos_onto(codes, 2 * h, q);
        assert(a[level_pos(codes, 2 * h, i) as int] == ((codes[i] / h) % 2 == 1));
        assert(b[level_pos(codes, 2 * h, i) as int] == ((codes[i] / h) % 2 == 1));
    }
    assert(a =~= b);
}

/// A coarser grouping counts at least as many symbols as a finer one.
pub proof fn lemma_cnt_eq_coarser(codes: Seq<nat>, h: nat, c: nat, i: nat)
    requires
        h >= 1,
    ensures
        cnt_eq(codes, 1, c, i) <= cnt_eq(codes, h, c / h, i),
    decreases i,
{
    if i > 0 {
        lemma_cnt_eq_coarser(codes, h, c, (i - 1) as nat);
    }
}

} // verus!
