//! Rank and select over a bit vector, with a two-level index of
//! precomputed counts.

use crate::bits::{
    count_bit, count_set, lemma_count_bit_split, lemma_count_bit_step, lemma_count_set_bound,
    lemma_count_set_split, lemma_count_set_value_bits, lemma_value_bits_of_bits_value, popcount,
};
use crate::bv::{BitVec, IntVec};
use crate::math::{
    cdiv, cdiv_2, ceil_div, ceil_log2, clog, lemma_ceil_div_bounds, lemma_ceil_log2_bounds,
    lemma_ceil_log2_monotonic,
};
use vstd::arithmetic::div_mod::{
    lemma_div_denominator, lemma_fundamental_div_mod, lemma_fundamental_div_mod_converse,
    lemma_mod_bound, lemma_truncate_middle,
};
use vstd::arithmetic::power2::{lemma2_to64, lemma2_to64_rest, lemma_pow2_strictly_increases, pow2};
use vstd::prelude::*;

verus! {

/// The number of bits in a block of the index over `n` bits.
pub open spec fn block_size(n: nat) -> nat {
    let l = ceil_log2(n);
    if (l + 1) / 2 >= 1 {
        (l + 1) / 2
    } else {
        1
    }
}

/// The number of bits in a super-block of the index over `n` bits: a
/// multiple of the block size.
pub open spec fn super_block_size(n: nat) -> nat {
    let l = ceil_log2(n);
    let s = if (l * l + 1) / 2 >= 1 {
        (l * l + 1) / 2
    } else {
        1
    };
    (s / block_size(n)) * block_size(n)
}

/// Where the super-block of block `j` starts, in the index over `n` bits.
pub open spec fn super_block_start(n: nat, j: int) -> int {
    let b = block_size(n) as int;
    let s = super_block_size(n) as int;
    (j * b / s) * s
}

/// The super-block table of the index over `bits`: for each super-block,
/// the number of bits set before it.
pub open spec fn super_table_of(bits: Seq<bool>) -> Seq<u32> {
    Seq::new(
        ceil_div(bits.len(), super_block_size(bits.len())),
        |k: int| count_set(bits.take(k * super_block_size(bits.len()))) as u32,
    )
}

/// The block table of the index over `bits`: for each block, the number
/// of bits set before it in its super-block.
pub open spec fn block_table_of(bits: Seq<bool>) -> Seq<u32> {
    Seq::new(
        ceil_div(bits.len(), block_size(bits.len())),
        |j: int|
            count_set(
                bits.subrange(super_block_start(bits.len(), j), j * block_size(bits.len())),
            ) as u32,
    )
}

/// The longest bit vector that the index is defined for.
pub open spec fn max_len() -> nat {
    0x1_0000_0000
}

/// Whether the two tables of the index over `n` bits have a length in bits
/// that the machine can address.
pub open spec fn index_fits(n: nat) -> bool {
    &&& index_width(n) * ceil_div(n, super_block_size(n)) <= usize::MAX
    &&& index_width(super_block_size(n)) * ceil_div(n, block_size(n)) <= usize::MAX
}

/// The width in which counts up to `n` are stored.
pub open spec fn index_width(n: nat) -> nat {
    if ceil_log2(n) >= 1 {
        ceil_log2(n)
    } else {
        1
    }
}

/// `p` is the position of the `r`-th bit of `s` that equals `b`, counted
/// from one.
pub open spec fn is_select(s: Seq<bool>, b: bool, r: nat, p: int) -> bool {
    &&& 0 <= p < s.len()
    &&& s[p] == b
    &&& count_bit(s.take(p + 1), b) == r
}

/// The sizes that the sizing rule gives.
pub proof fn lemma_sizes(n: nat)
    requires
        1 <= n <= max_len(),
    ensures
        ceil_log2(n) <= 32,
        1 <= block_size(n) <= 16,
        1 <= index_width(n) <= 32,
        block_size(n) <= super_block_size(n) <= 512,
        super_block_size(n) % block_size(n) == 0,
        1 <= index_width(super_block_size(n)) <= 32,
        n <= pow2(index_width(n)),
        super_block_size(n) <= pow2(index_width(super_block_size(n))),
{
    let l = ceil_log2(n);
    lemma2_to64();
    lemma2_to64_rest();
    lemma_ceil_log2_bounds(n);
    if l > 32 {
        lemma_pow2_strictly_increases(32, (l - 1) as nat);
    }
    let b = block_size(n);
    let s0: nat = if (l * l + 1) / 2 >= 1 {
        (l * l + 1) / 2
    } else {
        1
    };
    assert(l * l <= 1024 && l * l >= l) by (nonlinear_arith)
        requires
            0 <= l <= 32,
    ;
    assert(s0 >= b);
    let m = s0 / b;
    lemma_fundamental_div_mod(s0 as int, b as int);
    lemma_mod_bound(s0 as int, b as int);
    vstd::arithmetic::div_mod::lemma_div_non_zero(s0 as int, b as int);
    vstd::arithmetic::mul::lemma_mul_is_commutative(m as int, b as int);
    vstd::arithmetic::div_mod::lemma_mod_multiples_basic(m as int, b as int);
    vstd::arithmetic::mul::lemma_mul_inequality(1, m as int, b as int);
    let s = super_block_size(n);
    assert(s == m * b);
    lemma_ceil_log2_monotonic(s, 512);
    crate::math::lemma_ceil_log2_unique(512, 9);
    lemma_ceil_log2_bounds(s);
}

/// On a machine that can address 32 bits for each bit of the vector, the
/// tables of the index can be built; a machine of 64 bits can for every
/// length up to the longest.
pub proof fn lemma_index_fits(n: nat)
    requires
        1 <= n <= max_len(),
        32 * n <= usize::MAX,
    ensures
        index_fits(n),
{
    lemma_sizes(n);
    let s = super_block_size(n);
    let b = block_size(n);
    lemma_ceil_div_bounds(n, s);
    lemma_ceil_div_bounds(n, b);
    let qs = ceil_div(n, s) as int;
    let qb = ceil_div(n, b) as int;
    assert(qs <= n && qb <= n) by (nonlinear_arith)
        requires
            (qs - 1) * s < n,
            (qb - 1) * b < n,
            s >= 1,
            b >= 1,
            n >= 1,
    ;
    vstd::arithmetic::mul::lemma_mul_upper_bound(index_width(n) as int, 32, qs, n as int);
    vstd::arithmetic::mul::lemma_mul_upper_bound(index_width(s) as int, 32, qb, n as int);
}

/// A number below `q * d` has a quotient by `d` below `q`.
proof fn lemma_div_lt(i: int, d: int, q: int)
    by (nonlinear_arith)
    requires
        0 <= i < q * d,
        d > 0,
    ensures
        0 <= i / d < q,
        (i / d) * d <= i < (i / d) * d + d,
{
}

/// Where position `i` falls in the two tables.
proof fn lemma_index_arith(i: int, b: int, s: int)
    requires
        0 <= i,
        b >= 1,
        s >= 1,
        s % b == 0,
    ensures
        s / b >= 1,
        b * (s / b) == s,
        i / s == (i / b) / (s / b),
        (i / s) * s <= (i / b) * b <= i < (i / b) * b + b,
        (i / b) * b - (i / s) * s < s,
{
    let m = s / b;
    let j = i / b;
    lemma_fundamental_div_mod(s, b);
    assert(m >= 1) by (nonlinear_arith)
        requires
            s == b * m,
            s >= 1,
            b >= 1,
    ;
    lemma_div_denominator(i, b, m);
    lemma_fundamental_div_mod(i, b);
    lemma_mod_bound(i, b);
    lemma_fundamental_div_mod(j, m);
    lemma_mod_bound(j, m);
    let k = j / m;
    assert(k * s <= j * b && j * b - k * s < s && j * b == b * j) by (nonlinear_arith)
        requires
            j == m * k + j % m,
            0 <= j % m < m,
            s == b * m,
            b >= 1,
    ;
}

/// Going from block `j` to block `j + 1` either stays in the super-block or
/// starts the next one.
proof fn lemma_next_block(j: int, b: int, s: int)
    requires
        0 <= j,
        b >= 1,
        s >= 1,
        s % b == 0,
    ensures
        ((j + 1) * b) % s == 0 ==> ((j + 1) / (s / b)) * s == (j + 1) * b,
        ((j + 1) * b) % s != 0 ==> (j + 1) / (s / b) == j / (s / b),
        (j + 1) * b == j * b + b,
{
    let m = s / b;
    lemma_index_arith(j, b, s);
    lemma_truncate_middle(j + 1, b, m);
    assert(b * (j + 1) == (j + 1) * b && (j + 1) * b == j * b + b) by (nonlinear_arith);
    lemma_fundamental_div_mod(j + 1, m);
    lemma_mod_bound(j + 1, m);
    lemma_fundamental_div_mod(j, m);
    lemma_mod_bound(j, m);
    let r1 = (j + 1) % m;
    assert(b * r1 == 0 <==> r1 == 0) by (nonlinear_arith)
        requires
            b >= 1,
            r1 >= 0,
    ;
    if r1 == 0 {
        let q = (j + 1) / m;
        assert(q * s == (j + 1) * b) by (nonlinear_arith)
            requires
                j + 1 == m * q,
                s == b * m,
        ;
    } else {
        let q = j / m;
        let r = j % m;
        if r + 1 < m {
            lemma_fundamental_div_mod_converse(j + 1, m, q, r + 1);
        } else {
            assert(j + 1 == m * (q + 1)) by (nonlinear_arith)
                requires
                    j == m * q + r,
                    r + 1 == m,
            ;
            lemma_fundamental_div_mod_converse(j + 1, m, q + 1, 0);
        }
    }
}

/// The population count of a number read from a run of bits is the number
/// of bits set in the run.
proof fn lemma_popcount_of_bits(s: Seq<bool>)
    ensures
        popcount(crate::bits::bits_value(s)) == count_set(s),
{
    lemma_value_bits_of_bits_value(s);
    lemma_count_set_value_bits(crate::bits::bits_value(s), s.len());
}

/// Rank is consistent: the ones and the zeros up to a position add up to the
/// number of positions, and neither count exceeds it.
pub proof fn lemma_rank_consistent(s: Seq<bool>, i: int)
    requires
        0 <= i < s.len(),
    ensures
        count_bit(s.take(i + 1), true) + count_bit(s.take(i + 1), false) == i + 1,
        count_bit(s.take(i + 1), true) <= i + 1,
{
    lemma_count_set_bound(s.take(i + 1));
}

/// Rank is monotonic: one more position adds at most one.
pub proof fn lemma_rank_monotonic(s: Seq<bool>, b: bool, i: int)
    requires
        0 <= i,
        i + 1 < s.len(),
    ensures
        count_bit(s.take(i + 1), b) <= count_bit(s.take(i + 2), b) <= count_bit(s.take(i + 1), b)
            + 1,
{
    lemma_count_bit_step(s, b, i + 1);
}

/// At most one position is the `r`-th occurrence of `b`.
pub proof fn lemma_select_unique(s: Seq<bool>, b: bool, r: nat, p: int, q: int)
    requires
        is_select(s, b, r, p),
        is_select(s, b, r, q),
    ensures
        p == q,
{
    if p < q {
        lemma_count_bit_split(s, b, p + 1, q);
        lemma_count_bit_step(s, b, q);
    } else if q < p {
        lemma_count_bit_split(s, b, q + 1, p);
        lemma_count_bit_step(s, b, p);
    }
}

/// Select inverts rank: a position that holds `b` is the occurrence of `b`
/// that its rank names, and the only one.
pub proof fn lemma_select_of_rank(s: Seq<bool>, b: bool, p: int)
    requires
        0 <= p < s.len(),
        s[p] == b,
    ensures
        is_select(s, b, count_bit(s.take(p + 1), b), p),
        1 <= count_bit(s.take(p + 1), b) <= count_bit(s, b),
        forall|q: int| #[trigger] is_select(s, b, count_bit(s.take(p + 1), b), q) ==> q == p,
{
    let r = count_bit(s.take(p + 1), b);
    lemma_count_bit_step(s, b, p);
    lemma_count_bit_split(s, b, p + 1, s.len() as int);
    assert(s.take(s.len() as int) =~= s);
    assert forall|q: int| #[trigger] is_select(s, b, r, q) implies q == p by {
        lemma_select_unique(s, b, r, p, q);
    }
}

/// An occurrence number that select can find is between one and the number
/// of occurrences.
pub proof fn lemma_select_range(s: Seq<bool>, b: bool, r: nat, p: int)
    requires
        is_select(s, b, r, p),
    ensures
        1 <= r <= count_bit(s, b),
{
    lemma_select_of_rank(s, b, p);
}

/// The `r`-th occurrence of `b` at or after `l` is the occurrence of `b`
/// in the whole sequence that comes `r` after those before `l`.
proof fn lemma_select_from(s: Seq<bool>, b: bool, l: int, r: nat, p: int)
    requires
        0 <= l <= s.len(),
    ensures
        count_bit(s, b) == count_bit(s.take(l), b) + count_bit(s.subrange(l, s.len() as int), b),
        count_bit(s.take(l), b) <= l,
        count_bit(s, b) <= s.len(),
        r >= 1 && is_select(s, b, count_bit(s.take(l), b) + r, p) ==> p >= l && is_select(
            s.subrange(l, s.len() as int),
            b,
            r,
            p - l,
        ) && r <= count_bit(s.subrange(l, s.len() as int), b),
{
    let n = s.len() as int;
    let rest = s.subrange(l, n);
    lemma_count_bit_split(s, b, l, n);
    assert(s.take(n) =~= s);
    lemma_count_set_bound(s);
    if r >= 1 && is_select(s, b, count_bit(s.take(l), b) + r, p) {
        if p < l {
            lemma_count_bit_split(s, b, p + 1, l);
        }
        lemma_count_bit_split(s, b, l, p + 1);
        assert(rest.take(p - l + 1) =~= s.subrange(l, p + 1));
        lemma_select_range(rest, b, r, p - l);
    }
}

/// A bit vector with an index that answers rank in constant time.
#[derive(Debug)]
pub struct RankSupport {
    bv: BitVec,
    s: usize,
    b: usize,
    rs: IntVec,
    rb: IntVec,
}

impl View for RankSupport {
    type V = Seq<bool>;

    /// The bits, in order.
    closed spec fn view(&self) -> Seq<bool> {
        self.bv@
    }
}

/// Entry `k` of the super-block table counts the bits set before super-block `k`.
spec fn super_counts_ok(bits: Seq<bool>, s: int, rs: Seq<u32>, upto: int) -> bool {
    forall|k: int| 0 <= k < upto ==> #[trigger] rs[k] == count_set(bits.take(k * s))
}

/// Entry `j` of the block table counts the bits set before block `j` in its super-block.
spec fn block_counts_ok(bits: Seq<bool>, s: int, b: int, rb: Seq<u32>, upto: int) -> bool {
    forall|j: int|
        0 <= j < upto ==> #[trigger] rb[j] == count_set(
            bits.subrange((j / (s / b)) * s, j * b),
        )
}

impl RankSupport {
    /// The sizes follow the sizing rule, and each table entry is the count
    /// that it stands for.
    pub closed spec fn wf(&self) -> bool {
        let n = self.bv@.len();
        &&& self.bv.wf()
        &&& 1 <= n <= max_len()
        &&& index_fits(n)
        &&& self.b == block_size(n)
        &&& self.s == super_block_size(n)
        &&& self.rs.wf()
        &&& self.rb.wf()
        &&& self.rs@.len() == ceil_div(n, self.s as nat)
        &&& self.rb@.len() == ceil_div(n, self.b as nat)
        &&& self.rs.width() == index_width(n)
        &&& self.rb.width() == index_width(self.s as nat)
        &&& super_counts_ok(self.bv@, self.s as int, self.rs@, self.rs@.len() as int)
        &&& block_counts_ok(self.bv@, self.s as int, self.b as int, self.rb@, self.rb@.len() as int)
    }

    /// The super-block table: for each super-block, the number of bits set before it.
    fn get_rs(bv: &BitVec, s: usize) -> (rs: IntVec)
        requires
            bv.wf(),
            1 <= bv@.len() <= max_len(),
            s == super_block_size(bv@.len()),
            index_fits(bv@.len()),
        ensures
            rs.wf(),
            rs@.len() == ceil_div(bv@.len(), s as nat),
            rs.width() == index_width(bv@.len()),
            super_counts_ok(bv@, s as int, rs@, rs@.len() as int),
    {
        let n = bv.len();
        proof {
            lemma_sizes(n as nat);
            lemma_ceil_div_bounds(n as nat, s as nat);
        }
        let n_blocks = cdiv(n, s);
        let l = clog(n);
        let w = if l > 1 {
            l
        } else {
            1
        };  //we still need 1 bit to store "0"
        let mut rs = IntVec::new(w, n_blocks);
        let mut count: u32 = 0;
        let mut i: usize = 0;
        proof {
            assert(bv@.take(0) =~= Seq::<bool>::empty());
        }
        while i < n_blocks - 1
            invariant
                bv.wf(),
                n == bv@.len(),
                1 <= n <= max_len(),
                s >= 1,
                n_blocks >= 1,
                (n_blocks - 1) * s < n,
                rs.wf(),
                rs.width() == w,
                n <= pow2(w as nat),
                rs@.len() == n_blocks,
                i <= n_blocks - 1,
                count == count_set(bv@.take(i * s)),
                super_counts_ok(bv@, s as int, rs@, i + 1),
            decreases n_blocks - i,
        {
            // then count each 32 bit chunk...
            let mut counted_bits: usize = 0;
            proof {
                assert((i + 1) * s <= (n_blocks - 1) * s && (i + 1) * s == i * s + s && i * s >= 0)
                    by (nonlinear_arith)
                    requires
                        0 <= i < n_blocks - 1,
                        s >= 1,
                ;
            }
            while counted_bits < s
                invariant
                    bv.wf(),
                    n == bv@.len(),
                    n <= max_len(),
                    counted_bits <= s,
                    i * s + s < n,
                    i * s >= 0,
                    count == count_set(bv@.take(i * s + counted_bits)),
                decreases s - counted_bits,
            {
                let bits_to_count = if s - counted_bits > 32 {
                    32
                } else {
                    s - counted_bits
                };
                let start = i * s + counted_bits;
                let word = bv.get_int(start, bits_to_count);
                proof {
                    lemma_popcount_of_bits(bv@.subrange(start as int, start + bits_to_count));
                    lemma_count_set_split(bv@, start as int, start + bits_to_count);
                    lemma_count_set_bound(bv@.take(start + bits_to_count));
                }
                count += word.count_ones();
                counted_bits += bits_to_count;
            }
            proof {
                lemma_count_set_bound(bv@.take(i * s + s));
            }
            let ghost before = rs@;
            rs.set_int(i + 1, count);
            proof {
                assert forall|k: int| 0 <= k < i + 2 implies #[trigger] rs@[k] == count_set(
                    bv@.take(k * s),
                ) by {
                    if k <= i {
                        assert(rs@[k] == before[k]);
                    }
                }
            }
            i += 1;
        }
        rs
    }

    /// The block table: for each block, the number of bits set before it
    /// in its super-block.
    fn get_rb(bv: &BitVec, s: usize, b: usize) -> (rb: IntVec)
        requires
            bv.wf(),
            1 <= bv@.len() <= max_len(),
            s == super_block_size(bv@.len()),
            b == block_size(bv@.len()),
            index_fits(bv@.len()),
        ensures
            rb.wf(),
            rb@.len() == ceil_div(bv@.len(), b as nat),
            rb.width() == index_width(s as nat),
            block_counts_ok(bv@, s as int, b as int, rb@, rb@.len() as int),
    {
        let n = bv.len();
        proof {
            lemma_sizes(n as nat);
            lemma_ceil_div_bounds(n as nat, b as nat);
        }
        let n_bblocks = cdiv(n, b);
        let l = clog(s);
        let w = if l > 1 {
            l
        } else {
            1
        };  //we still need 1 bit to store "0"

        let mut rp = IntVec::new(w, n_bblocks);
        let mut counted_bits: usize = 0;
        let mut count: u32 = 0;
        let mut i: usize = 0;
        proof {
            lemma_index_arith(0, b as int, s as int);
            assert(bv@.subrange(0, 0) =~= Seq::<bool>::empty());
            assert((0int / (s as int / b as int)) * (s as int) == 0) by (nonlinear_arith)
                requires
                    s as int / b as int >= 1,
            ;
        }
        while i < n_bblocks - 1
            invariant
                bv.wf(),
                n == bv@.len(),
                1 <= n <= max_len(),
                1 <= b <= 16,
                1 <= s <= 512,
                s % b == 0,
                n_bblocks >= 1,
                (n_bblocks - 1) * b < n,
                rp.wf(),
                rp.width() == w,
                s <= pow2(w as nat),
                rp@.len() == n_bblocks,
                i <= n_bblocks - 1,
                counted_bits == i * b,
                count == count_set(bv@.subrange((i / (s / b)) * s, i * b)),
                block_counts_ok(bv@, s as int, b as int, rp@, i + 1),
            decreases n_bblocks - i,
        {
            proof {
                assert((i + 1) * b <= (n_bblocks - 1) * b) by (nonlinear_arith)
                    requires
                        0 <= i < n_bblocks - 1,
                        b >= 1,
                ;
                lemma_next_block(i as int, b as int, s as int);
                lemma_index_arith(i * b, b as int, s as int);
                lemma_index_arith((i + 1) * b, b as int, s as int);
                lemma_popcount_of_bits(bv@.subrange(i * b, i * b + b));
            }
            let word = bv.get_int(i * b, b);
            let ghost start = (i as int / (s as int / b as int)) * s;
            proof {
                // the counted run grows by one block
                vstd::arithmetic::div_mod::lemma_div_by_multiple(i as int, b as int);
                assert(i * b == b * i) by (nonlinear_arith);
                vstd::arithmetic::div_mod::lemma_div_multiples_vanish(i as int, b as int);
                assert((i * b) / (b as int) == i);
                assert(0 <= start <= i * b);
                assert(bv@.subrange(start, i * b + b) =~= bv@.subrange(start, i * b)
                    + bv@.subrange(i * b, i * b + b));
                crate::bits::lemma_count_set_concat(
                    bv@.subrange(start, i * b),
                    bv@.subrange(i * b, i * b + b),
                );
                lemma_count_set_bound(bv@.subrange(start, i * b + b));
            }
            count += word.count_ones();  // always count b bits.
            counted_bits += b;
            if counted_bits % s == 0 {
                count = 0
            }
            proof {
                let next = ((i + 1) as int / (s as int / b as int)) * s;
                if counted_bits % s == 0 {
                    assert(bv@.subrange(next, (i + 1) * b) =~= Seq::<bool>::empty());
                } else {
                    assert(next == start);
                    // a run inside one super-block is shorter than the super-block
                    assert(((i + 1) * b) / (b as int) == i + 1) by {
                        vstd::arithmetic::div_mod::lemma_div_multiples_vanish(
                            i as int + 1,
                            b as int,
                        );
                        assert((i + 1) * b == b * (i + 1)) by (nonlinear_arith);
                    }
                    assert((i + 1) * b - next < s);
                }
            }
            let ghost before = rp@;
            rp.set_int(i + 1, count);
            proof {
                assert forall|j: int| 0 <= j < i + 2 implies #[trigger] rp@[j] == count_set(
                    bv@.subrange((j / (s as int / b as int)) * s, j * b),
                ) by {
                    if j <= i {
                        assert(rp@[j] == before[j]);
                    }
                }
            }
            i += 1;
        }
        rp
    }

    /// Builds the index over `bv`.
    pub fn new(bv: BitVec) -> (rs: Self)
        requires
            bv.wf(),
            1 <= bv@.len() <= max_len(),
            index_fits(bv@.len()),
        ensures
            rs.wf(),
            rs@ == bv@,
            rs.store() == bv,
            rs.super_counts()@ == super_table_of(bv@),
            rs.block_counts()@ == block_table_of(bv@),
            rs.super_counts().width() == index_width(bv@.len()),
            rs.block_counts().width() == index_width(super_block_size(bv@.len())),
    {
        let (s, b) = Self::sizes(bv.len());
        let rs = Self::get_rs(&bv, s);
        let rb = Self::get_rb(&bv, s, b);
        let built = Self { bv: bv, s: s, b: b, rs: rs, rb: rb };
        proof {
            built.lemma_wf();
        }
        built
    }

    /// The number of bits up to and including position `i` that equal `b`.
    pub fn rank(&self, b: bool, i: usize) -> (r: usize)
        requires
            self.wf(),
            i < self@.len(),
        ensures
            r == count_bit(self@.take(i + 1), b),
    {
        if b {
            self.rank1(i)
        } else {
            self.rank0(i)
        }
    }

    /// The number of bits in positions `l ..= l + i` that equal `b`.
    pub fn rel_rank(&self, b: bool, l: usize, i: usize) -> (r: usize)
        requires
            self.wf(),
            l + i < self@.len(),
        ensures
            r == count_bit(self@.subrange(l as int, l + i + 1), b),
    {
        if l == 0 {
            assert(self@.subrange(0, i + 1) =~= self@.take(i + 1));
            self.rank(b, i)
        } else {
            proof {
                lemma_count_bit_split(self@, b, l as int, l + i + 1);
            }
            self.rank(b, l + i) - self.rank(b, l - 1)
        }
    }

    /// The position, counted from `l`, of the `r`-th bit at or after `l`
    /// that equals `b`; `None` if there is none.
    pub fn rel_select(&self, b: bool, l: usize, r: usize) -> (res: Option<usize>)
        requires
            self.wf(),
            l <= self@.len(),
        ensures
            res matches Some(q) ==> is_select(
                self@.subrange(l as int, self@.len() as int),
                b,
                r as nat,
                q as int,
            ),
            res is None <==> (r == 0 || r > count_bit(
                self@.subrange(l as int, self@.len() as int),
                b,
            )),
    {
        if l == 0 {
            assert(self@.subrange(0, self@.len() as int) =~= self@);
            self.select(b, r)
        } else {
            let n = self.len();
            let base = self.rank(b, l - 1);
            proof {
                lemma_select_from(self@, b, l as int, r as nat, 0);
            }
            if r == 0 || r > n - base {
                return None;
            }
            match self.select(b, base + r) {
                None => None,
                Some(p) => {
                    proof {
                        lemma_select_from(self@, b, l as int, r as nat, p as int);
                    }
                    Some(p - l)
                },
            }
        }
    }

    /// The number of set bits up to and including position `i`.
    pub fn rank1(&self, i: usize) -> (r: usize)
        requires
            self.wf(),
            i < self@.len(),
        ensures
            r == count_set(self@.take(i + 1)),
            r <= i + 1,
    {
        proof {
            let n = self@.len();
            self.bv.lemma_len();
            lemma_sizes(n);
            lemma_index_arith(i as int, self.b as int, self.s as int);
            lemma_ceil_div_bounds(n, self.s as nat);
            lemma_ceil_div_bounds(n, self.b as nat);
            lemma_div_lt(i as int, self.s as int, ceil_div(n, self.s as nat) as int);
            lemma_div_lt(i as int, self.b as int, ceil_div(n, self.b as nat) as int);
        }
        let s_i = i / self.s;
        let r_s = self.rs.get_int(s_i);

        let b_i = i / self.b;
        let r_b = self.rb.get_int(b_i);

        let p_i = b_i * self.b;
        let width = (i % self.b) + 1;
        proof {
            lemma_fundamental_div_mod(i as int, self.b as int);
            assert(self.b * b_i == b_i * self.b) by (nonlinear_arith);
        }
        let w = self.bv.get_int(p_i, width);
        let r_p = w.count_ones();
        proof {
            let bits = self@;
            let start = s_i * self.s;
            assert(self.rs@[s_i as int] == count_set(bits.take(start)));
            assert(self.rb@[b_i as int] == count_set(bits.subrange(start, p_i as int)));
            lemma_popcount_of_bits(bits.subrange(p_i as int, i + 1));
            lemma_count_set_split(bits, start, p_i as int);
            lemma_count_set_split(bits, p_i as int, i + 1);
            lemma_count_set_bound(bits.take(i + 1));
        }
        r_s as usize + r_b as usize + r_p as usize
    }

    /// The number of clear bits up to and including position `i`.
    pub fn rank0(&self, i: usize) -> (r: usize)
        requires
            self.wf(),
            i < self@.len(),
        ensures
            r == i + 1 - count_set(self@.take(i + 1)),
    {
        proof {
            self.bv.lemma_len();
        }
        i + 1 - self.rank1(i)
    }

    /// The number of bits.
    pub fn len(&self) -> (n: usize)
        requires
            self.wf(),
        ensures
            n == self@.len(),
            n >= 1,
    {
        self.bv.len()
    }

    /// The position of the `r`-th bit that equals `b`, counted from one;
    /// `None` if there is none.
    pub fn select(&self, b: bool, r: usize) -> (res: Option<usize>)
        requires
            self.wf(),
        ensures
            res matches Some(p) ==> is_select(self@, b, r as nat, p as int),
            res is None <==> (r == 0 || r > count_bit(self@, b)),
    {
        proof {
            lemma_count_set_bound(self@);
        }
        if b {
            self.select1(r)
        } else {
            self.select0(r)
        }
    }

    /// The position of the `r`-th set bit, counted from one; `None` if
    /// there is none.
    pub fn select1(&self, r: usize) -> (res: Option<usize>)
        requires
            self.wf(),
        ensures
            res matches Some(p) ==> is_select(self@, true, r as nat, p as int),
            res is None <==> (r == 0 || r > count_set(self@)),
    {
        let n = self.len();
        let res = self.select1_(r, 0, n);
        proof {
            assert(self@.take(0) =~= Seq::<bool>::empty());
            assert(self@.take(n as int) =~= self@);
            if let Some(p) = res {
                lemma_select_range(self@, true, r as nat, p as int);
            }
        }
        res
    }

    /// The position of the `r`-th clear bit, counted from one; `None` if
    /// there is none.
    pub fn select0(&self, r: usize) -> (res: Option<usize>)
        requires
            self.wf(),
        ensures
            res matches Some(p) ==> is_select(self@, false, r as nat, p as int),
            res is None <==> (r == 0 || r > self@.len() - count_set(self@)),
    {
        let n = self.len();
        let res = self.select0_(r, 0, n);
        proof {
            assert(self@.take(0) =~= Seq::<bool>::empty());
            assert(self@.take(n as int) =~= self@);
            lemma_count_set_bound(self@);
            if let Some(p) = res {
                lemma_select_range(self@, false, r as nat, p as int);
            }
        }
        res
    }

    /// Binary search for the `i`-th set bit among the positions `l .. r`.
    fn select1_(&self, i: usize, l: usize, r: usize) -> (res: Option<usize>)
        requires
            self.wf(),
            l <= self@.len(),
            r <= self@.len(),
        ensures
            res matches Some(p) ==> l <= p < r && is_select(self@, true, i as nat, p as int),
            l <= r && count_bit(self@.take(l as int), true) < i <= count_bit(
                self@.take(r as int),
                true,
            ) ==> res is Some,
        decreases r - l,
    {
        if r <= l {
            return None
        }
        // finds i in [l, r)
        let p = l + ((r - l) / 2);
        let p_rank = self.rank1(p);
        proof {
            lemma_count_bit_step(self@, true, p as int);
        }
        if p_rank == i && self.bv.get(p) {
            Some(p)
        } else if p_rank < i {
            self.select1_(i, p + 1, r)
        } else {
            self.select1_(i, l, p)
        }
    }

    /// Binary search for the `i`-th clear bit among the positions `l .. r`.
    fn select0_(&self, i: usize, l: usize, r: usize) -> (res: Option<usize>)
        requires
            self.wf(),
            l <= self@.len(),
            r <= self@.len(),
        ensures
            res matches Some(p) ==> l <= p < r && is_select(self@, false, i as nat, p as int),
            l <= r && count_bit(self@.take(l as int), false) < i <= count_bit(
                self@.take(r as int),
                false,
            ) ==> res is Some,
        decreases r - l,
    {
        // finds i in [l, r)
        if r <= l {
            return None
        }
        let p = l + ((r - l) / 2);
        let p_rank = self.rank0(p);
        proof {
            lemma_count_bit_step(self@, false, p as int);
            lemma_count_set_bound(self@.take(p + 1));
        }
        if p_rank == i && !self.bv.get(p) {
            Some(p)
        } else if p_rank < i {
            self.select0_(i, p + 1, r)
        } else {
            self.select0_(i, l, p)
        }
    }

    /// The bit vector under the index.
    pub closed spec fn store(&self) -> BitVec {
        self.bv
    }

    /// The super-block table: for each super-block, the number of bits set before it.
    pub closed spec fn super_counts(&self) -> IntVec {
        self.rs
    }

    /// The block table: for each block, the number of bits set before it
    /// in its super-block.
    pub closed spec fn block_counts(&self) -> IntVec {
        self.rb
    }

    /// The size in bytes: the struct, the bit vector and the two tables.
    pub open spec fn spec_size_of(&self) -> nat {
        vstd::layout::size_of::<RankSupport>() + self.store().spec_size_of()
            + self.super_counts().spec_size_of() + self.block_counts().spec_size_of()
    }

    /// The tables are as long and as wide as the sizing rule says, and
    /// hold the counts that they stand for.
    pub proof fn lemma_wf(&self)
        requires
            self.wf(),
        ensures
            1 <= self@.len() <= max_len(),
            index_fits(self@.len()),
            self.store().wf(),
            self.store()@ == self@,
            self.super_counts().wf(),
            self.block_counts().wf(),
            self.super_counts()@.len() == ceil_div(self@.len(), super_block_size(self@.len())),
            self.block_counts()@.len() == ceil_div(self@.len(), block_size(self@.len())),
            self.super_counts().width() == index_width(self@.len()),
            self.block_counts().width() == index_width(super_block_size(self@.len())),
            self.super_counts()@ == super_table_of(self@),
            self.block_counts()@ == block_table_of(self@),
    {
        let n = self@.len();
        let s = super_block_size(n) as int;
        let b = block_size(n) as int;
        lemma_sizes(n);
        assert forall|j: int| 0 <= j < self.block_counts()@.len() implies #[trigger] self.block_counts()@[j]
            == block_table_of(self@)[j] by {
            vstd::arithmetic::mul::lemma_mul_nonnegative(j, b);
            vstd::arithmetic::mul::lemma_mul_is_commutative(j, b);
            lemma_index_arith(j * b, b, s);
            vstd::arithmetic::div_mod::lemma_div_multiples_vanish(j, b);
        }
        assert(self.block_counts()@ =~= block_table_of(self@));
        assert(self.super_counts()@ =~= super_table_of(self@));
    }

    /// The size in bytes.
    pub fn size_of(&self) -> (bytes: usize)
        requires
            self.wf(),
            self.spec_size_of() <= usize::MAX,
        ensures
            bytes == self.spec_size_of(),
    {
        let mut size = std::mem::size_of::<Self>();
        size += self.bv.size_of();
        size += self.rs.size_of();
        size += self.rb.size_of();
        size
    }

    /// The size in bits.
    pub fn overhead(&self) -> (bits: usize)
        requires
            self.wf(),
            self.spec_size_of() * 8 <= usize::MAX,
        ensures
            bits == self.spec_size_of() * 8,
    {
        self.size_of() * 8
    }

    /// The sizes of a super-block and of a block of the index over `n` bits.
    fn sizes(n: usize) -> (sizes: (usize, usize))
        requires
            1 <= n <= max_len(),
        ensures
            sizes.0 == super_block_size(n as nat),
            sizes.1 == block_size(n as nat),
    {
        let l = clog(n);
        proof {
            lemma_sizes(n as nat);
            assert(l * l <= 1024) by (nonlinear_arith)
                requires
                    0 <= l <= 32,
            ;
        }
        let s = if cdiv_2(l * l) > 1 {
            cdiv_2(l * l)
        } else {
            1
        };
        let b = if cdiv_2(l) > 1 {
            cdiv_2(l)
        } else {
            1
        };
        let s = (s / b) * b;  // keeps s divisible by b
        (s, b)
    }

    /// Whether a bit vector of `n` bits can be indexed: it has a bit, is
    /// not longer than the longest, and its tables fit the machine.
    pub fn can_index(n: usize) -> (ok: bool)
        ensures
            ok == (1 <= n <= max_len() && index_fits(n as nat)),
    {
        if n < 1 || n as u64 > 0x1_0000_0000u64 {
            return false;
        }
        let (s, b) = Self::sizes(n);
        proof {
            lemma_sizes(n as nat);
        }
        let ln = clog(n);
        let w = if ln > 1 {
            ln
        } else {
            1
        };
        let ls = clog(s);
        let ws = if ls > 1 {
            ls
        } else {
            1
        };
        let qs = cdiv(n, s);
        let qb = cdiv(n, b);
        w.checked_mul(qs).is_some() && ws.checked_mul(qb).is_some()
    }

    /// The index over `bv` with the given sizes and tables, if they are
    /// those of the index over `bv`.
    pub fn from_parts(bv: BitVec, s: usize, b: usize, rs: IntVec, rb: IntVec) -> (res: Option<Self>)
        requires
            bv.wf(),
            rs.wf(),
            rb.wf(),
        ensures
            res is Some <==> {
                &&& 1 <= bv@.len() <= max_len()
                &&& index_fits(bv@.len())
                &&& s == super_block_size(bv@.len())
                &&& b == block_size(bv@.len())
                &&& rs.width() == index_width(bv@.len())
                &&& rb.width() == index_width(super_block_size(bv@.len()))
                &&& rs@ == super_table_of(bv@)
                &&& rb@ == block_table_of(bv@)
            },
            res matches Some(r) ==> r.wf() && r@ == bv@,
    {
        if !Self::can_index(bv.len()) {
            return None;
        }
        let built = Self::new(bv);
        proof {
            built.lemma_wf();
        }
        if built.s != s || built.b != b || !built.rs.same(&rs) || !built.rb.same(&rb) {
            return None;
        }
        Some(built)
    }

    /// The bit vector under the index.
    pub fn bits(&self) -> (bv: &BitVec)
        ensures
            *bv == self.store(),
    {
        &self.bv
    }

    /// The number of bits of a super-block.
    pub fn super_block_bits(&self) -> (s: usize)
        requires
            self.wf(),
        ensures
            s == super_block_size(self@.len()),
    {
        self.s
    }

    /// The number of bits of a block.
    pub fn block_bits(&self) -> (b: usize)
        requires
            self.wf(),
        ensures
            b == block_size(self@.len()),
    {
        self.b
    }

    /// The super-block table.
    pub fn super_table(&self) -> (rs: &IntVec)
        ensures
            *rs == self.super_counts(),
    {
        &self.rs
    }

    /// The block table.
    pub fn block_table(&self) -> (rb: &IntVec)
        ensures
            *rb == self.block_counts(),
    {
        &self.rb
    }

    /// Bit `i`.
    pub fn get(&self, i: usize) -> (b: bool)
        requires
            self.wf(),
            i < self@.len(),
        ensures
            b == self@[i as int],
    {
        self.bv.get(i)
    }
}

impl Clone for RankSupport {
    /// A copy with the same bits and the same index.
    fn clone(&self) -> (rs: Self)
        ensures
            rs@ == self@,
            self.wf() ==> rs.wf(),
    {
        RankSupport {
            bv: self.bv.clone(),
            s: self.s,
            b: self.b,
            rs: self.rs.clone(),
            rb: self.rb.clone(),
        }
    }
}

} // verus!
