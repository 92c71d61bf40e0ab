//! Bit-packed vectors: a fixed-length array of bits, and a fixed-length array
//! of fixed-width unsigned integers stored in one.

use crate::bits::{
    bits_value, lemma_bits_of_word, lemma_fits_shift, lemma_mask_bits, lemma_value_bits_index,
    lemma_value_bits_len, low_bit, mask_of, value_bits, word_bit,
};
use crate::math::{cdiv, ceil_div, lemma_ceil_div_bounds};
use vstd::arithmetic::power2::{lemma2_to64, lemma_pow2_strictly_increases, pow2};
use vstd::prelude::*;

verus! {

/// `s` with the bits from position `i` on replaced by those of `t`.
pub open spec fn overwrite(s: Seq<bool>, i: int, t: Seq<bool>) -> Seq<bool> {
    s.subrange(0, i) + t + s.subrange(i + t.len(), s.len() as int)
}

/// A number written into a run of bits is the number read from that run,
/// and the bits outside the run stay as they were.
pub proof fn lemma_write_then_read(s: Seq<bool>, i: int, v: nat, w: nat)
    requires
        0 <= i,
        i + w <= s.len(),
        v < pow2(w),
    ensures
        overwrite(s, i, value_bits(v, w)).len() == s.len(),
        bits_value(overwrite(s, i, value_bits(v, w)).subrange(i, i + w)) == v,
        forall|q: int|
            0 <= q < s.len() && !(i <= q < i + w) ==> overwrite(s, i, value_bits(v, w))[q] == s[q],
{
    lemma_value_bits_len(v, w);
    let bits = value_bits(v, w);
    assert(overwrite(s, i, bits).subrange(i, i + w) =~= bits);
    crate::bits::lemma_bits_value_of_value_bits(v, w);
    vstd::arithmetic::div_mod::lemma_small_mod(v, pow2(w));
}

/// Two writes into runs that do not overlap give the same bits in either order.
pub proof fn lemma_writes_commute(s: Seq<bool>, i: int, a: Seq<bool>, j: int, b: Seq<bool>)
    requires
        0 <= i,
        i + a.len() <= s.len(),
        0 <= j,
        j + b.len() <= s.len(),
        i + a.len() <= j || j + b.len() <= i,
    ensures
        overwrite(overwrite(s, i, a), j, b) == overwrite(overwrite(s, j, b), i, a),
{
    assert(overwrite(overwrite(s, i, a), j, b) =~= overwrite(overwrite(s, j, b), i, a));
}

/// A fixed-length sequence of bits, packed into 32-bit words, most
/// significant bit first.
#[derive(Debug)]
pub struct BitVec {
    n: usize,
    blocks: Vec<u32>,
    n_blocks: usize,
}

impl View for BitVec {
    type V = Seq<bool>;

    /// The bits, in order.
    closed spec fn view(&self) -> Seq<bool> {
        self.raw().take(self.n as int)
    }
}

/// The zero word has no bit set.
proof fn lemma_zero_word(k: u32)
    by (bit_vector)
    requires
        k < 32,
    ensures
        !word_bit(0u32, k),
{
}

/// Reading a run inside one word: masking and shifting down gives the
/// bits of the run, and nothing above them.
proof fn lemma_get_single(blk: u32, lo: u32, w: u32, j: u32)
    by (bit_vector)
    requires
        1 <= w,
        lo + w <= 32,
        j < w,
    ensures
        low_bit(
            (blk & mask_of(lo, w)) >> ((32 - lo - w) as u32),
            (w - 1 - j) as u32,
        ) == word_bit(blk, (lo + j) as u32),
        w == 32 || (((blk & mask_of(lo, w)) >> ((32 - lo - w) as u32)) as u64) >> (w as u64)
            == 0,
{
}

/// Two words joined into 64 bits, cleared above the run that starts at
/// `lo` and shifted down to its `w` bits.
spec fn join_words(l: u32, r: u32, lo: u32, w: u32) -> u64 {
    ((((r as u64) | ((l as u64) << 32u64)) << (lo as u64)) >> (lo as u64)) >> ((64 - lo
        - w) as u64)
}

/// Reading a run across two words gives the bits of the run, first those
/// of the left word and then those of the right, and nothing above them.
proof fn lemma_get_cross(l: u32, r: u32, lo: u32, w: u32, j: u32)
    by (bit_vector)
    requires
        lo < 32,
        w <= 32,
        lo + w > 32,
        j < w,
    ensures
        join_words(l, r, lo, w) <= 0xffff_ffffu64,
        low_bit(join_words(l, r, lo, w) as u32, (w - 1 - j) as u32) == (if lo + j < 32 {
            word_bit(l, (lo + j) as u32)
        } else {
            word_bit(r, (lo + j - 32) as u32)
        }),
        w == 32 || join_words(l, r, lo, w) >> (w as u64) == 0,
{
}

/// Writing a run inside one word sets the bits of the run to those of
/// `v` and leaves the others.
proof fn lemma_set_single(blk: u32, v: u32, lo: u32, w: u32, k: u32)
    by (bit_vector)
    requires
        1 <= w,
        lo + w <= 32,
        w == 32 || (v as u64) >> (w as u64) == 0,
        k < 32,
    ensures
        word_bit((blk & !mask_of(lo, w)) | (v << ((32 - lo - w) as u32)), k) == (if lo <= k && k
            < lo + w {
            low_bit(v, (w - 1 - (k - lo)) as u32)
        } else {
            word_bit(blk, k)
        }),
{
}

/// Writing a run across two words: the left word takes the high bits of
/// `v` from `lo` on and keeps the bits before.
proof fn lemma_set_cross_left(blk: u32, v: u32, lo: u32, w: u32, k: u32)
    by (bit_vector)
    requires
        lo < 32,
        w <= 32,
        lo + w > 32,
        w == 32 || (v as u64) >> (w as u64) == 0,
        k < 32,
    ensures
        word_bit(
            (blk & !mask_of(lo, (32 - lo) as u32)) | (v >> ((lo + w - 32) as u32)),
            k,
        ) == (if lo <= k {
            low_bit(v, (w - 1 - (k - lo)) as u32)
        } else {
            word_bit(blk, k)
        }),
{
}

/// Writing a run across two words: the right word takes the low bits of
/// `v` at its start and keeps the bits behind.
proof fn lemma_set_cross_right(blk: u32, v: u32, lo: u32, w: u32, k: u32)
    by (bit_vector)
    requires
        lo < 32,
        w <= 32,
        lo + w > 32,
        k < 32,
    ensures
        word_bit(
            (blk & !mask_of(0, (lo + w - 32) as u32)) | (v << ((64 - lo - w) as u32)),
            k,
        ) == (if k < lo + w - 32 {
            low_bit(v, (w - 1 - (k + 32 - lo)) as u32)
        } else {
            word_bit(blk, k)
        }),
{
}

impl BitVec {
    /// Every stored bit, the padding of the last word included.
    spec fn raw(&self) -> Seq<bool> {
        Seq::new(
            32 * self.blocks@.len(),
            |q: int| word_bit(self.blocks@[q / 32], (q % 32) as u32),
        )
    }

    /// The words that hold the bits.
    pub closed spec fn words(&self) -> Seq<u32> {
        self.blocks@
    }

    /// The storage is exactly as long as the bits need, and the padding
    /// behind the last bit is clear.
    pub closed spec fn wf(&self) -> bool {
        &&& self.n_blocks == self.blocks@.len()
        &&& self.n_blocks == ceil_div(self.n as nat, 32)
        &&& forall|q: int| self.n <= q < 32 * self.blocks@.len() ==> !#[trigger] self.raw()[q]
    }

    /// Bit `32 * k + j` of the vector is bit `j` of word `k`, counted from the
    /// most significant end; what lies behind the last bit is clear.
    pub proof fn lemma_words(&self)
        requires
            self.wf(),
        ensures
            self@.len() <= 32 * self.words().len() < self@.len() + 32,
            self.words().len() == ceil_div(self@.len(), 32),
            forall|k: int, j: u32|
                0 <= k < self.words().len() && j < 32 ==> #[trigger] word_bit(
                    self.words()[k],
                    j,
                ) == (32 * k + j < self@.len() && self@[32 * k + j]),
    {
        lemma_ceil_div_bounds(self.n as nat, 32);
        assert forall|k: int, j: u32| 0 <= k < self.words().len() && j < 32 implies #[trigger] word_bit(
            self.words()[k],
            j,
        ) == (32 * k + j < self@.len() && self@[32 * k + j]) by {
            let q = 32 * k + j;
            assert(self.raw()[q] == word_bit(self.blocks@[q / 32], (q % 32) as u32));
        }
    }

    /// The length is one that the machine can hold.
    pub proof fn lemma_len(&self)
        requires
            self.wf(),
        ensures
            self@.len() <= usize::MAX,
    {
        lemma_ceil_div_bounds(self.n as nat, 32);
    }

    /// A vector of `n` clear bits, in as many words as `n` bits need.
    pub fn new(n: usize) -> (bv: Self)
        ensures
            bv.wf(),
            bv@.len() == n,
            bv.words().len() == ceil_div(n as nat, 32),
            forall|i: int| 0 <= i < n ==> !bv@[i],
    {
        let n_blocks = cdiv(n, 32_usize);
        let bv = Self { n: n, blocks: vec![0; n_blocks], n_blocks: n_blocks };
        proof {
            lemma_ceil_div_bounds(n as nat, 32);
            assert forall|q: int| 0 <= q < 32 * bv.blocks@.len() implies !#[trigger] bv.raw()[q] by {
                lemma_zero_word((q % 32) as u32);
            }
        }
        bv
    }

    /// The number of bits.
    pub fn len(&self) -> (n: usize)
        requires
            self.wf(),
        ensures
            n == self@.len(),
    {
        proof {
            lemma_ceil_div_bounds(self.n as nat, 32);
        }
        self.n
    }

    /// Whether `v` can be written in `word_size` bits.
    pub fn val_fits(v: u32, word_size: usize) -> (fits: bool)
        ensures
            fits == (v < pow2(word_size as nat)),
    {
        if word_size >= 32 {
            proof {
                lemma2_to64();
                vstd::arithmetic::power2::lemma2_to64_rest();
                if word_size > 32 {
                    lemma_pow2_strictly_increases(32, word_size as nat);
                }
            }
            true
        } else {
            proof {
                lemma_fits_shift(v, word_size as u64);
            }
            (v as u64 >> word_size) == 0u64
        }
    }

    /// The word whose bits `i .. i + repeats`, counted from the most
    /// significant end, are set.
    pub fn get_mask(i: usize, repeats: usize) -> (mask: u32)
        requires
            i + repeats <= 32,
        ensures
            mask == mask_of(i as u32, repeats as u32),
            forall|k: u32| k < 32 ==> #[trigger] word_bit(mask, k) == (i <= k < i + repeats),
    {
        proof {
            assert forall|k: u32| k < 32 implies #[trigger] word_bit(
                mask_of(i as u32, repeats as u32),
                k,
            ) == (i <= k < i + repeats) by {
                lemma_mask_bits(i as u32, repeats as u32, k);
            }
        }
        if repeats == 0 {
            0u32
        } else if repeats == 32 {
            !0u32
        } else {
            let mut mask = !0u32;
            mask <<= 32 - repeats;
            mask >>= i;
            mask
        }
    }

    /// The bits `i .. i + w`, read as a number, most significant bit first.
    pub fn get_int(&self, i: usize, w: usize) -> (v: u32)
        requires
            self.wf(),
            w <= 32,
            i + w <= self@.len(),
        ensures
            v == bits_value(self@.subrange(i as int, i + w)),
            v < pow2(w as nat),
    {
        if w == 0 {
            proof {
                lemma2_to64();
            }
            return 0;
        }
        proof {
            lemma_ceil_div_bounds(self.n as nat, 32);
        }
        let b_i = i / 32_usize;
        let lo = i % 32_usize;
        let hi = (64_usize - lo - w) % 32_usize;
        let ghost bits = self@.subrange(i as int, i + w);
        let v: u32;
        if lo + w <= 32 {
            let mut block = self.blocks[b_i];
            let ghost blk = block;
            let mask = Self::get_mask(lo, w);
            block &= mask;
            v = block >> hi;
            proof {
                assert(v == (blk & mask_of(lo as u32, w as u32)) >> ((32 - lo - w) as u32));
                assert forall|j: int| 0 <= j < w implies bits[j] == low_bit(
                    v,
                    (w - 1 - j) as u32,
                ) by {
                    lemma_get_single(blk, lo as u32, w as u32, j as u32);
                    assert(self.raw()[i + j] == word_bit(blk, (lo + j) as u32));
                }
                lemma_get_single(blk, lo as u32, w as u32, 0);
            }
        } else {
            let lblock = self.blocks[b_i] as u64;
            let rblock = self.blocks[b_i + 1] as u64;
            let ghost l = self.blocks[b_i as int];
            let ghost r = self.blocks[b_i + 1];
            let mut block = rblock | (lblock << 32);
            block <<= lo;
            block >>= lo;
            block >>= hi;
            proof {
                assert(block == join_words(l, r, lo as u32, w as u32));
                lemma_get_cross(l, r, lo as u32, w as u32, 0);
            }
            v = block as u32;
            proof {
                assert forall|j: int| 0 <= j < w implies bits[j] == low_bit(
                    v,
                    (w - 1 - j) as u32,
                ) by {
                    lemma_get_cross(l, r, lo as u32, w as u32, j as u32);
                    if lo + j < 32 {
                        assert(self.raw()[i + j] == word_bit(l, (lo + j) as u32));
                    } else {
                        assert(self.raw()[i + j] == word_bit(r, (lo + j - 32) as u32));
                    }
                }
            }
        }
        proof {
            if w < 32 {
                lemma_fits_shift(v, w as u64);
            } else {
                lemma2_to64();
                vstd::arithmetic::power2::lemma2_to64_rest();
            }
            lemma_bits_of_word(bits, v);
        }
        v
    }

    /// Writes `v` into the bits `i .. i + w`, most significant bit first.
    pub fn set_int(&mut self, i: usize, v: u32, w: usize)
        requires
            old(self).wf(),
            w <= 32,
            i + w <= old(self)@.len(),
            v < pow2(w as nat),
        ensures
            final(self).wf(),
            final(self)@ == overwrite(old(self)@, i as int, value_bits(v as nat, w as nat)),
            final(self)@.len() == old(self)@.len(),
    {
        proof {
            lemma_value_bits_len(v as nat, w as nat);
        }
        if w == 0 {
            assert(self@ =~= overwrite(self@, i as int, value_bits(v as nat, 0)));
            return ;
        }
        proof {
            lemma_ceil_div_bounds(self.n as nat, 32);
            if w < 32 {
                lemma_fits_shift(v, w as u64);
            }
        }
        let b_i = i / 32_usize;
        let lo = i % 32_usize;
        let hi = (64_usize - lo - w) % 32_usize;
        let ghost before = *self;

        if lo + w <= 32 {
            let mut block = self.blocks[b_i];
            let ghost blk = block;
            let mask = Self::get_mask(lo, w);
            block &= !mask;
            block |= v << hi;
            self.blocks.set(b_i, block);
            proof {
                assert forall|q: int| 0 <= q < 32 * self.blocks@.len() implies self.raw()[q] == (if i
                    <= q < i + w {
                    low_bit(v, (w - 1 - (q - i)) as u32)
                } else {
                    before.raw()[q]
                }) by {
                    if q / 32 == b_i {
                        lemma_set_single(blk, v, lo as u32, w as u32, (q % 32) as u32);
                    }
                }
            }
        } else {
            let mut lblock = self.blocks[b_i];
            let ghost l = lblock;
            let lmask = Self::get_mask(lo, 32 - lo);
            lblock &= !lmask;
            lblock |= v >> (32 - hi);
            self.blocks.set(b_i, lblock);

            let mut rblock = self.blocks[b_i + 1];
            let ghost r = rblock;
            let rmask = Self::get_mask(0, 32 - hi);
            rblock &= !rmask;
            rblock |= v << hi;
            self.blocks.set(b_i + 1, rblock);
            proof {
                assert forall|q: int| 0 <= q < 32 * self.blocks@.len() implies self.raw()[q] == (if i
                    <= q < i + w {
                    low_bit(v, (w - 1 - (q - i)) as u32)
                } else {
                    before.raw()[q]
                }) by {
                    if q / 32 == b_i {
                        lemma_set_cross_left(l, v, lo as u32, w as u32, (q % 32) as u32);
                    } else if q / 32 == b_i + 1 {
                        lemma_set_cross_right(r, v, lo as u32, w as u32, (q % 32) as u32);
                    }
                }
            }
        }
        proof {
            let bits = value_bits(v as nat, w as nat);
            let expected = overwrite(before@, i as int, bits);
            assert forall|q: int| 0 <= q < self.n implies self@[q] == expected[q] by {
                if i <= q < i + w {
                    lemma_value_bits_index(v, w as nat, q - i);
                }
            }
            assert(self@ =~= expected);
        }
    }

    /// Bit `i`.
    pub fn get(&self, i: usize) -> (b: bool)
        requires
            self.wf(),
            i < self@.len(),
        ensures
            b == self@[i as int],
    {
        proof {
            let s = self@.subrange(i as int, i + 1);
            assert(s.drop_last() =~= Seq::<bool>::empty());
            assert(bits_value(s.drop_last()) == 0);
            assert(s.last() == self@[i as int]);
        }
        self.get_int(i, 1) == 1
    }

    /// Sets bit `i` to `v`.
    pub fn set(&mut self, i: usize, v: bool)
        requires
            old(self).wf(),
            i < old(self)@.len(),
        ensures
            final(self).wf(),
            final(self)@ == old(self)@.update(i as int, v),
    {
        proof {
            lemma2_to64();
            crate::bits::lemma_value_bits_len(0, 0);
            assert(value_bits(1, 1) =~= seq![true]);
            assert(value_bits(0, 1) =~= seq![false]);
        }
        if v {
            self.set_int(i, 1, 1);
        } else {
            self.set_int(i, 0, 1);
        }
        assert(self@ =~= old(self)@.update(i as int, v));
    }

    /// The bits of `bytes`, each byte most significant bit first, without
    /// the last `pad` bits.
    pub fn from_padded_bytes(bytes: &Vec<u8>, pad: usize) -> (bv: Self)
        requires
            bytes@.len() >= 1,
            pad <= 8,
            8 * bytes@.len() <= usize::MAX,
        ensures
            bv.wf(),
            bv@ == bytes_bits(bytes@).take(8 * bytes@.len() - pad),
    {
        let n_bytes = bytes.len();
        let n = n_bytes * 8 - pad;
        let mut bv = Self::new(n);
        let last = n_bytes - 1;
        let mut i: usize = 0;
        proof {
            lemma2_to64();
            assert(bytes@.take(0) =~= Seq::<u8>::empty());
            assert(bv@ =~= bytes_bits(bytes@.take(0)) + Seq::new(n as nat, |q: int| false));
        }
        while i < last
            invariant
                bv.wf(),
                i <= last,
                last + 1 == n_bytes == bytes@.len(),
                n == n_bytes * 8 - pad,
                pad <= 8,
                bv@ == bytes_bits(bytes@.take(i as int)) + Seq::new(
                    (n - 8 * i) as nat,
                    |q: int| false,
                ),
            decreases last - i,
        {
            let ghost before = bv@;
            proof {
                lemma2_to64();
                lemma_bytes_bits_len(bytes@.take(i as int));
                lemma_value_bits_len(bytes[i as int] as nat, 8);
            }
            bv.set_int(i * 8, bytes[i] as u32, 8);
            proof {
                assert(bytes@.take(i + 1).drop_last() =~= bytes@.take(i as int));
                lemma_bytes_bits_len(bytes@.take(i + 1));
                assert(bv@ =~= bytes_bits(bytes@.take(i + 1)) + Seq::new(
                    (n - 8 * (i + 1)) as nat,
                    |q: int| false,
                ));
            }
            i += 1;
        }
        let b = bytes[last] as u32;
        proof {
            lemma_bytes_bits_len(bytes@.take(last as int));
            lemma_shr_byte(b, pad as u32, 0);
            lemma_fits_shift(b >> pad, (8 - pad) as u64);
            lemma_value_bits_len((b >> pad) as nat, (8 - pad) as nat);
            lemma_value_bits_len(b as nat, 8);
        }
        bv.set_int(last * 8, b >> pad, 8 - pad);
        proof {
            assert(bytes@.drop_last() =~= bytes@.take(last as int));
            let top = value_bits((b >> pad) as nat, (8 - pad) as nat);
            assert forall|j: int| 0 <= j < 8 - pad implies top[j] == value_bits(b as nat, 8)[j] by {
                lemma_value_bits_index(b >> pad, (8 - pad) as nat, j);
                lemma_value_bits_index(b, 8, j);
                lemma_shr_byte(b, pad as u32, (7 - pad - j) as u32);
            }
            assert(bv@ =~= bytes_bits(bytes@).take(8 * bytes@.len() - pad));
        }
        bv
    }

    /// The bits of `bytes`, each byte most significant bit first.
    pub fn from_bytes(bytes: &Vec<u8>) -> (bv: Self)
        requires
            bytes@.len() >= 1,
            8 * bytes@.len() <= usize::MAX,
        ensures
            bv.wf(),
            bv@ == bytes_bits(bytes@),
    {
        proof {
            lemma_bytes_bits_len(bytes@);
            assert(bytes_bits(bytes@).take(8 * bytes@.len() - 0) =~= bytes_bits(bytes@));
        }
        Self::from_padded_bytes(bytes, 0)
    }

    /// The bits as a vector of booleans.
    pub fn to_vec(&self) -> (v: Vec<bool>)
        requires
            self.wf(),
        ensures
            v@ == self@,
    {
        let n = self.len();
        let mut v = vec![false; n];
        let mut i: usize = 0;
        while i < n
            invariant
                self.wf(),
                n == self@.len(),
                v@.len() == n,
                i <= n,
                forall|j: int| 0 <= j < i ==> v@[j] == self@[j],
            decreases n - i,
        {
            let b = self.get(i);
            v.set(i, b);
            i += 1;
        }
        assert(v@ =~= self@);
        v
    }

    /// The size of the vector in bytes: the struct and the words behind it.
    pub open spec fn spec_size_of(&self) -> nat {
        vstd::layout::size_of::<BitVec>() + 4 * self.words().len()
    }

    /// The size of the vector in bytes.
    pub fn size_of(&self) -> (bytes: usize)
        requires
            self.wf(),
        ensures
            bytes == self.spec_size_of(),
    {
        // Size of BitVec struct in bytes
        vstd::layout::layout_for_type_is_valid::<BitVec>();
        let words = self.blocks.as_slice();
        proof {
            lemma_ceil_div_bounds(self.n as nat, 32);
            broadcast use vstd::layout::layout_of_primitives;
            vstd::layout::layout_of_slices::<u32>(words);
        }
        std::mem::size_of::<Self>() + std::mem::size_of_val::<[u32]>(words)
    }

    /// The vector of `n` bits held in `blocks`, if they are the words of
    /// one: as many as `n` bits need, with nothing set behind bit `n`.
    pub fn from_blocks(n: usize, blocks: Vec<u32>) -> (res: Option<Self>)
        ensures
            res is Some <==> blocks@.len() == ceil_div(n as nat, 32) && (n % 32 != 0
                ==> padding_clear(blocks@[blocks@.len() - 1], (n % 32) as u32)),
            res matches Some(bv) ==> bv.wf() && bv@.len() == n && bv.words() == blocks@,
    {
        let n_blocks = cdiv(n, 32_usize);
        proof {
            lemma_ceil_div_bounds(n as nat, 32);
        }
        if blocks.len() != n_blocks {
            return None;
        }
        let used = n % 32;
        if used != 0 {
            let last = blocks[n_blocks - 1];
            let mask = Self::get_mask(0, used);
            if last & !mask != 0 {
                return None;
            }
        }
        let bv = Self { n: n, blocks: blocks, n_blocks: n_blocks };
        proof {
            assert forall|q: int| n <= q < 32 * bv.blocks@.len() implies !#[trigger] bv.raw()[q] by {
                assert(q / 32 == n_blocks - 1);
                assert(used != 0);
                lemma_padding(bv.blocks@[n_blocks - 1], used as u32, (q % 32) as u32);
            }
        }
        Some(bv)
    }

    /// Whether `other` holds the same bits.
    pub fn same(&self, other: &BitVec) -> (eq: bool)
        requires
            self.wf(),
            other.wf(),
        ensures
            eq == (self@ == other@),
    {
        let n = self.len();
        if n != other.len() {
            return false;
        }
        let mut i: usize = 0;
        while i < n
            invariant
                self.wf(),
                other.wf(),
                n == self@.len() == other@.len(),
                i <= n,
                forall|q: int| 0 <= q < i ==> self@[q] == other@[q],
            decreases n - i,
        {
            let w = if n - i > 32 {
                32
            } else {
                n - i
            };
            let a = self.get_int(i, w);
            let b = other.get_int(i, w);
            proof {
                let sa = self@.subrange(i as int, i + w);
                let sb = other@.subrange(i as int, i + w);
                crate::bits::lemma_value_bits_of_bits_value(sa);
                crate::bits::lemma_value_bits_of_bits_value(sb);
                if a == b {
                    assert forall|q: int| 0 <= q < i + w implies self@[q] == other@[q] by {
                        if q >= i {
                            assert(self@[q] == sa[q - i]);
                            assert(other@[q] == sb[q - i]);
                        }
                    }
                } else {
                    assert(self@ != other@);
                }
            }
            if a != b {
                return false;
            }
            i += w;
        }
        assert(self@ =~= other@);
        true
    }

    /// The words that hold the bits.
    pub fn blocks(&self) -> (w: &Vec<u32>)
        ensures
            w@ == self.words(),
    {
        &self.blocks
    }
}

/// The bits of a sequence of bytes, each byte most significant bit first.
pub open spec fn bytes_bits(b: Seq<u8>) -> Seq<bool>
    decreases b.len(),
{
    if b.len() == 0 {
        Seq::empty()
    } else {
        bytes_bits(b.drop_last()) + value_bits(b.last() as nat, 8)
    }
}

/// Each byte gives eight bits.
pub proof fn lemma_bytes_bits_len(b: Seq<u8>)
    ensures
        bytes_bits(b).len() == 8 * b.len(),
    decreases b.len(),
{
    if b.len() > 0 {
        lemma_bytes_bits_len(b.drop_last());
        lemma_value_bits_len(b.last() as nat, 8);
    }
}

/// Whether the word `w` has no bit set behind its first `used` bits,
/// counted from the most significant end.
pub open spec fn padding_clear(w: u32, used: u32) -> bool {
    w & !mask_of(0, used) == 0
}

/// A word with clear padding has no bit set behind its first `used` bits.
pub proof fn lemma_padding(w: u32, used: u32, k: u32)
    by (bit_vector)
    requires
        1 <= used < 32,
        used <= k < 32,
        padding_clear(w, used),
    ensures
        !word_bit(w, k),
{
}

/// A byte without its last `pad` bits is the byte shifted down by `pad`.
proof fn lemma_shr_byte(x: u32, pad: u32, k: u32)
    by (bit_vector)
    requires
        x < 256,
        pad <= 8,
        k + pad < 8 || k == 0,
    ensures
        k + pad < 8 ==> low_bit(x >> pad, k) == low_bit(x, (k + pad) as u32),
        ((x >> pad) as u64) >> ((8 - pad) as u64) == 0,
{
}

/// A run of clear bits spells zero.
pub proof fn lemma_bits_value_zero(s: Seq<bool>)
    requires
        forall|j: int| 0 <= j < s.len() ==> !s[j],
    ensures
        bits_value(s) == 0,
    decreases s.len(),
{
    if s.len() > 0 {
        lemma_bits_value_zero(s.drop_last());
    }
}

/// The slots of the elements lie one after the other and do not overlap.
proof fn lemma_slots(i: int, k: int, w: int, n: int)
    by (nonlinear_arith)
    requires
        0 <= i < n,
        0 <= k < n,
        w >= 1,
    ensures
        0 <= i * w,
        (i + 1) * w == i * w + w,
        (i + 1) * w <= n * w,
        n * w == w * n,
        k < i ==> (k + 1) * w <= i * w,
        k > i ==> (i + 1) * w <= k * w,
{
}

/// A fixed-length sequence of unsigned integers of one width, packed into a
/// [`BitVec`].
#[derive(Debug)]
pub struct IntVec {
    pub word_size: usize,
    bv: BitVec,
    n: usize,
}

impl View for IntVec {
    type V = Seq<u32>;

    /// The integers, in order.
    closed spec fn view(&self) -> Seq<u32> {
        Seq::new(
            self.n as nat,
            |i: int|
                bits_value(
                    self.bv@.subrange(i * self.word_size, (i + 1) * self.word_size),
                ) as u32,
        )
    }
}

impl IntVec {
    /// The width is between 1 and 32 bits, and the storage holds exactly
    /// `len` slots of that width.
    pub closed spec fn wf(&self) -> bool {
        &&& 1 <= self.word_size <= 32
        &&& self.bv.wf()
        &&& self.bv@.len() == self.word_size * self.n
    }

    /// The width of an element, in bits.
    pub closed spec fn width(&self) -> nat {
        self.word_size as nat
    }

    /// A vector of `n` zeros of `w` bits each.
    pub fn new(w: usize, n: usize) -> (iv: Self)
        requires
            1 <= w <= 32,
            w * n <= usize::MAX,
        ensures
            iv.wf(),
            iv.width() == w,
            iv@.len() == n,
            iv.store()@.len() == w * n,
            forall|i: int| 0 <= i < n ==> iv@[i] == 0,
    {
        let iv = Self { word_size: w, bv: BitVec::new(w * n), n: n };
        proof {
            assert forall|i: int| 0 <= i < n implies iv@[i] == 0 by {
                lemma_slots(i, i, w as int, n as int);
                lemma_bits_value_zero(iv.bv@.subrange(i * w, (i + 1) * w));
            }
        }
        iv
    }

    /// Element `i`.
    pub fn get_int(&self, i: usize) -> (v: u32)
        requires
            self.wf(),
            i < self@.len(),
        ensures
            v == self@[i as int],
            v < pow2(self.width()),
    {
        proof {
            lemma_slots(i as int, i as int, self.word_size as int, self.n as int);
        }
        self.bv.get_int(i * self.word_size, self.word_size)
    }

    /// Sets element `i` to `v`.
    pub fn set_int(&mut self, i: usize, v: u32)
        requires
            old(self).wf(),
            i < old(self)@.len(),
            v < pow2(old(self).width()),
        ensures
            final(self).wf(),
            final(self).width() == old(self).width(),
            final(self)@ == old(self)@.update(i as int, v),
    {
        let w = self.word_size;
        let ghost before = self.bv@;
        proof {
            lemma_slots(i as int, i as int, w as int, self.n as int);
            lemma_value_bits_len(v as nat, w as nat);
        }
        self.bv.set_int(i * w, v, w);
        proof {
            let bits = value_bits(v as nat, w as nat);
            assert forall|k: int| 0 <= k < self.n implies self@[k] == old(self)@.update(
                i as int,
                v,
            )[k] by {
                lemma_slots(i as int, k, w as int, self.n as int);
                lemma_slots(k, k, w as int, self.n as int);
                if k == i {
                    assert(self.bv@.subrange(k * w, (k + 1) * w) =~= bits);
                    crate::bits::lemma_bits_value_of_value_bits(v as nat, w as nat);
                    vstd::arithmetic::div_mod::lemma_small_mod(v as nat, pow2(w as nat));
                } else {
                    assert(self.bv@.subrange(k * w, (k + 1) * w) =~= before.subrange(
                        k * w,
                        (k + 1) * w,
                    ));
                }
            }
            assert(self@ =~= old(self)@.update(i as int, v));
        }
    }

    /// The number of elements.
    pub fn len(&self) -> (n: usize)
        ensures
            n == self@.len(),
    {
        self.n
    }

    /// The bit vector that holds the elements.
    pub closed spec fn store(&self) -> BitVec {
        self.bv
    }

    /// The size of the vector in bytes: the struct and the bit vector behind it.
    pub open spec fn spec_size_of(&self) -> nat {
        vstd::layout::size_of::<IntVec>() + self.store().spec_size_of()
    }

    /// The bit vector behind the elements holds one slot of `width` bits for each.
    pub proof fn lemma_wf(&self)
        requires
            self.wf(),
        ensures
            1 <= self.width() <= 32,
            self.store().wf(),
            self.store()@.len() == self.width() * self@.len(),
            forall|i: int|
                0 <= i < self@.len() ==> #[trigger] self@[i] == crate::bits::bits_value(
                    self.store()@.subrange(i * self.width(), (i + 1) * self.width()),
                ),
    {
        assert forall|i: int| 0 <= i < self@.len() implies #[trigger] self@[i]
            == crate::bits::bits_value(
            self.store()@.subrange(i * self.width(), (i + 1) * self.width()),
        ) by {
            lemma_slots(i, i, self.word_size as int, self.n as int);
            let bits = self.bv@.subrange(i * self.word_size, (i + 1) * self.word_size);
            crate::bits::lemma_value_bits_of_bits_value(bits);
            if self.word_size < 32 {
                lemma_pow2_strictly_increases(self.word_size as nat, 32);
            }
            lemma2_to64();
            vstd::arithmetic::power2::lemma2_to64_rest();
        }
    }

    /// The size of the vector in bytes.
    pub fn size_of(&self) -> (bytes: usize)
        requires
            self.wf(),
            self.spec_size_of() <= usize::MAX,
        ensures
            bytes == self.spec_size_of(),
    {
        // Size of IntVector in bytes
        std::mem::size_of::<Self>() + self.bv.size_of()
    }

    /// The vector of `n` elements of `word_size` bits held in `bv`, if it
    /// has the bits for them.
    pub fn from_parts(word_size: usize, n: usize, bv: BitVec) -> (res: Option<Self>)
        requires
            bv.wf(),
        ensures
            res is Some <==> 1 <= word_size <= 32 && bv@.len() == word_size * n,
            res matches Some(iv) ==> iv.wf() && iv.width() == word_size && iv@.len() == n
                && iv.store() == bv,
    {
        if word_size < 1 || word_size > 32 {
            return None;
        }
        match word_size.checked_mul(n) {
            None => {
                proof {
                    bv.lemma_len();
                }
                None
            },
            Some(bits) => {
                if bv.len() != bits {
                    return None;
                }
                Some(Self { word_size: word_size, bv: bv, n: n })
            },
        }
    }

    /// The bit vector that holds the elements.
    pub fn bits(&self) -> (bv: &BitVec)
        ensures
            *bv == self.store(),
    {
        &self.bv
    }

    /// Whether `other` holds the same elements in the same width.
    pub fn same(&self, other: &IntVec) -> (eq: bool)
        requires
            self.wf(),
            other.wf(),
        ensures
            eq == (self.width() == other.width() && self@ == other@),
    {
        if self.word_size != other.word_size || self.n != other.n {
            assert(self@.len() == self.n && other@.len() == other.n);
            return false;
        }
        let mut i: usize = 0;
        while i < self.n
            invariant
                self.wf(),
                other.wf(),
                self.n == other.n,
                i <= self.n,
                forall|j: int| 0 <= j < i ==> self@[j] == other@[j],
            decreases self.n - i,
        {
            if self.get_int(i) != other.get_int(i) {
                return false;
            }
            i += 1;
        }
        assert(self@ =~= other@);
        true
    }

    /// The width of an element, in bits.
    pub fn w_size(&self) -> (w: usize)
        ensures
            w == self.width(),
    {
        self.word_size
    }

    /// Packs `elems` into slots of `w` bits.
    pub fn from_vec(elems: &Vec<u32>, w: usize) -> (iv: Self)
        requires
            1 <= w <= 32,
            w * elems@.len() <= usize::MAX,
            forall|i: int| 0 <= i < elems@.len() ==> elems@[i] < pow2(w as nat),
        ensures
            iv.wf(),
            iv.width() == w,
            iv@ == elems@,
    {
        let mut iv = Self::new(w, elems.len());
        let n = iv.len();
        let mut i: usize = 0;
        while i < n
            invariant
                iv.wf(),
                iv.width() == w,
                n == elems@.len() == iv@.len(),
                i <= n,
                forall|j: int| 0 <= j < i ==> iv@[j] == elems@[j],
                forall|j: int| 0 <= j < elems@.len() ==> elems@[j] < pow2(w as nat),
            decreases n - i,
        {
            iv.set_int(i, elems[i]);
            i += 1;
        }
        assert(iv@ =~= elems@);
        iv
    }

    /// The elements as a vector.
    pub fn to_vec(&self) -> (v: Vec<u32>)
        requires
            self.wf(),
        ensures
            v@ == self@,
    {
        let n = self.len();
        let mut v = vec![0; n];
        let mut i: usize = 0;
        while i < n
            invariant
                self.wf(),
                n == self@.len(),
                v@.len() == n,
                i <= n,
                forall|j: int| 0 <= j < i ==> v@[j] == self@[j],
            decreases n - i,
        {
            let x = self.get_int(i);
            v.set(i, x);
            i += 1;
        }
        assert(v@ =~= self@);
        v
    }
}

impl Clone for BitVec {
    /// A copy with the same bits.
    fn clone(&self) -> (bv: Self)
        ensures
            bv@ == self@,
            bv.words() == self.words(),
            self.wf() ==> bv.wf(),
    {
        let bv = BitVec { n: self.n, blocks: self.blocks.clone(), n_blocks: self.n_blocks };
        proof {
            assert(bv.blocks@ =~= self.blocks@);
            assert(bv.raw() =~= self.raw());
        }
        bv
    }
}

impl Clone for IntVec {
    /// A copy with the same elements.
    fn clone(&self) -> (iv: Self)
        ensures
            iv@ == self@,
            iv.width() == self.width(),
            self.wf() ==> iv.wf(),
    {
        let iv = IntVec { word_size: self.word_size, bv: self.bv.clone(), n: self.n };
        proof {
            assert(iv@ =~= self@);
        }
        iv
    }
}

} // verus!
