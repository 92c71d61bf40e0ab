//! Wavelet trees over ASCII text: a table that gives each character of a
//! text a dense code, a builder that lays the text out level by level, and
//! the tree that answers access, rank and select.

use crate::bits::{
    count_bit, count_set, lemma_count_bit_concat, lemma_count_set_bound,
    lemma_count_set_take_step,
};
use crate::bv::{BitVec, IntVec};
use crate::levels::{
    bit_val, cnt_eq, cnt_lt, lemma_cnt_basics, lemma_cnt_eq_all, lemma_cnt_eq_coarser,
    lemma_cnt_eq_misses, lemma_cnt_lt_zero, lemma_cnt_refine, lemma_key_split, lemma_level_counts,
    lemma_level_pos_bound, lemma_level_pos_injective, level_ok, level_pos,
};
use crate::math::{
    ceil_div, ceil_log2, clog, lemma_ceil_log2_bounds, lemma_ceil_log2_monotonic,
    lemma_ceil_log2_unique,
};
use crate::rank_select::{
    index_fits, is_select, lemma_select_unique, lemma_sizes, max_len, RankSupport,
};
use crate::text::{
    code_of, codes_of, is_occurrence, lemma_code_bound, lemma_code_injective, lemma_code_onto,
    lemma_codes_bound, lemma_codes_count, lemma_occurrence_exists, lemma_occurrences_monotonic,
    lemma_occurs_step, lemma_sigma_is_distinct, occurrences, occurs, presence_of,
};
use vstd::arithmetic::power2::{
    lemma2_to64, lemma_pow2_pos, lemma_pow2_strictly_increases, lemma_pow2_unfold, pow2,
};
use vstd::bits::lemma_usize_shr_is_div;
use vstd::prelude::*;
use vstd::string::StringSliceAdditionalSpecFns;
use vstd::utf8::is_ascii_chars;

verus! {

/// The index over a table of 128 bits can be built on every machine.
proof fn lemma_table_index_fits()
    ensures
        index_fits(128),
{
    lemma2_to64();
    lemma_ceil_log2_unique(128, 7);
    lemma_ceil_log2_unique(24, 5);
    let l = ceil_log2(128);
    assert(l * l == 49) by (nonlinear_arith)
        requires
            l == 7,
    ;
    assert(crate::rank_select::block_size(128) == 4);
    assert(crate::rank_select::super_block_size(128) == 24);
    assert(crate::rank_select::index_width(128) == 7);
    assert(crate::rank_select::index_width(24) == 5);
    assert(ceil_div(128, 24) == 6);
    assert(ceil_div(128, 4) == 32);
}

/// Testing a code against the mask of bit `i` tells whether the quotient
/// of the code by the weight of that bit is odd.
proof fn lemma_mask_test(bits: usize, w: usize, i: usize)
    by (bit_vector)
    requires
        1 <= w <= 7,
        i < w,
    ensures
        ((((1usize << ((w - 1) as usize)) >> i) & bits) != 0) == ((bits >> ((w - 1 - i) as usize))
            % 2 == 1),
{
}

/// The number of distinct characters of an ASCII text.
pub fn count_chars(s: &str) -> (n: usize)
    requires
        s.is_ascii(),
    ensures
        n == s@.to_set().len(),
        n == count_set(presence_of(s@)),
        n <= 128,
{
    proof {
        lemma_sigma_is_distinct(s@);
    }
    let mut table = [0usize;128];
    let bytes = s.as_bytes();
    let len = bytes.len();
    let mut i: usize = 0;
    proof {
        vstd::string::is_ascii_spec_bytes(s);
    }
    while i < len
        invariant
            s.is_ascii(),
            len == s@.len(),
            bytes@ == s.spec_bytes(),
            i <= len,
            forall|c: int| 0 <= c < 128 ==> table[c] == bit_val(occurs(s@.take(i as int), c)),
        decreases len - i,
    {
        let c = bytes[i];
        proof {
            vstd::string::is_ascii_spec_bytes(s);
            assert(s@[i as int] as int == c);
            assert((s@[i as int] as int) < 128);
        }
        table[c as usize] = 1;
        proof {
            assert forall|d: int| 0 <= d < 128 implies table[d] == bit_val(
                occurs(s@.take(i + 1), d),
            ) by {
                lemma_occurs_step(s@, i as int, d);
            }
        }
        i += 1;
    }
    assert(s@.take(len as int) =~= s@);
    let ghost present = presence_of(s@);
    let mut total: usize = 0;
    let mut k: usize = 0;
    assert(present.take(0) =~= Seq::<bool>::empty());
    while k < 128
        invariant
            k <= 128,
            present == presence_of(s@),
            total == count_set(present.take(k as int)),
            total <= k,
            forall|c: int| 0 <= c < 128 ==> table[c] == bit_val(occurs(s@, c)),
        decreases 128 - k,
    {
        proof {
            lemma_count_set_take_step(present, k as int);
        }
        total += table[k];
        k += 1;
    }
    assert(present.take(128) =~= present);
    total
}

/// The alphabet of a text: which ASCII characters occur in it, and the
/// width of the codes that number them.
#[derive(Debug)]
pub struct CharTable {
    // minimal bit representation of ascii chars
    rs: RankSupport,
    width: usize,
}

impl View for CharTable {
    type V = Seq<bool>;

    /// For each of the 128 ASCII characters, whether it is in the alphabet.
    closed spec fn view(&self) -> Seq<bool> {
        self.rs@
    }
}

impl CharTable {
    /// The table covers the 128 ASCII characters, at least one is present,
    /// and the width is the least that holds every code.
    pub closed spec fn wf(&self) -> bool {
        &&& self.rs.wf()
        &&& self.rs@.len() == 128
        &&& count_set(self.rs@) >= 1
        &&& self.width == ceil_log2(count_set(self.rs@))
    }

    /// The number of bits of a code.
    pub closed spec fn spec_width(&self) -> nat {
        self.width as nat
    }

    /// Whether `c` is in the alphabet.
    pub open spec fn contains(&self, c: char) -> bool {
        (c as int) < 128 && self@[c as int]
    }

    /// The code of `c`.
    pub open spec fn code(&self, c: char) -> nat {
        code_of(self@, c as int)
    }

    /// The number of characters in the alphabet.
    pub open spec fn sigma(&self) -> nat {
        count_set(self@)
    }

    /// What being well-formed means, for use outside this module.
    pub proof fn lemma_wf(&self)
        requires
            self.wf(),
        ensures
            self@.len() == 128,
            1 <= self.sigma() <= 128,
            self.spec_width() == ceil_log2(self.sigma()),
            self.spec_width() <= 7,
            self.sigma() <= pow2(self.spec_width()),
            self.index().wf(),
            self.index()@ == self@,
    {
        lemma2_to64();
        lemma_count_set_bound(self@);
        lemma_ceil_log2_monotonic(self.sigma(), 128);
        lemma_ceil_log2_unique(128, 7);
        lemma_ceil_log2_bounds(self.sigma());
    }

    /// The alphabet of the ASCII text `s`.
    pub fn new(s: &str) -> (ct: Self)
        requires
            s.is_ascii(),
            s@.len() >= 1,
        ensures
            ct.wf(),
            ct@ == presence_of(s@),
            ct.sigma() == s@.to_set().len(),
            ct.spec_width() == ceil_log2(s@.to_set().len()),
    {
        let mut bv = BitVec::new(128);
        let bytes = s.as_bytes();
        let len = bytes.len();
        let mut i: usize = 0;
        proof {
            vstd::string::is_ascii_spec_bytes(s);
        }
        while i < len
            invariant
                s.is_ascii(),
                len == s@.len(),
                bytes@ == s.spec_bytes(),
                i <= len,
                bv.wf(),
                bv@.len() == 128,
                forall|c: int| 0 <= c < 128 ==> bv@[c] == occurs(s@.take(i as int), c),
            decreases len - i,
        {
            let c = bytes[i];
            proof {
                vstd::string::is_ascii_spec_bytes(s);
                assert(s@[i as int] as int == c);
                assert((s@[i as int] as int) < 128);
            }
            bv.set(c as usize, true);
            proof {
                assert forall|d: int| 0 <= d < 128 implies bv@[d] == occurs(s@.take(i + 1), d) by {
                    lemma_occurs_step(s@, i as int, d);
                }
            }
            i += 1;
        }
        proof {
            assert(s@.take(len as int) =~= s@);
            assert(bv@ =~= presence_of(s@));
            lemma_table_index_fits();
            // the first character of the text is present
            let c0 = s@[0] as int;
            assert(occurs(s@, c0));
            lemma_code_bound(bv@, c0);
        }
        let sigma = count_chars(s);
        Self { width: clog(sigma), rs: RankSupport::new(bv) }
    }

    /// The code of `c`: its rank among the characters of the alphabet,
    /// counted from zero.
    pub fn i(&self, c: char) -> (code: usize)
        requires
            self.wf(),
            self.contains(c),
        ensures
            code == self.code(c),
            code < self.sigma(),
    {
        let c_i = c as usize;
        proof {
            lemma_count_set_take_step(self@, c_i as int);
            lemma_code_bound(self@, c_i as int);
        }
        self.rs.rank1(c_i) - 1
    }

    /// Bit `i` of the code of `c`, counted from the most significant of
    /// the `width` bits of a code.
    pub fn get_bit(&self, i: usize, c: char) -> (b: bool)
        requires
            self.wf(),
            i < self.spec_width(),
            self.contains(c),
        ensures
            b == ((self.code(c) / pow2((self.spec_width() - 1 - i) as nat)) % 2 == 1),
    {
        proof {
            self.lemma_wf();
        }
        let bits = self.i(c);
        let mut mask = 1usize;
        mask <<= self.width - 1;  // to most significnt bit
        mask >>= i;  // to the index
        proof {
            lemma_mask_test(bits, self.width, i);
            lemma_usize_shr_is_div(bits, (self.width - 1 - i) as usize);
        }
        mask & bits != 0
    }

    /// The `l` most significant of the `width` bits of the code of `c`.
    pub fn get_prefix(&self, l: usize, c: char) -> (p: usize)
        requires
            self.wf(),
            1 <= l <= self.spec_width(),
            self.contains(c),
        ensures
            p == self.code(c) / pow2((self.spec_width() - l) as nat),
    {
        proof {
            self.lemma_wf();
        }
        let code = self.i(c);
        proof {
            lemma_usize_shr_is_div(code, (self.width - l) as usize);
        }
        code >> (self.width - l)
    }

    /// The character whose code is `char_i`.
    pub fn get_char(&self, char_i: usize) -> (c: char)
        requires
            self.wf(),
            char_i < self.sigma(),
        ensures
            self.contains(c),
            self.code(c) == char_i,
    {
        proof {
            self.lemma_wf();
        }
        let p = self.rs.select1(char_i + 1).unwrap();
        proof {
            lemma_count_set_take_step(self@, p as int);
        }
        p as u8 as char
    }

    /// Whether `c` is in the alphabet.
    pub fn in_charset(&self, c: char) -> (b: bool)
        requires
            self.wf(),
        ensures
            b == self.contains(c),
    {
        let c_i = c as usize;
        c_i < 128 && self.rs.get(c_i)
    }

    /// The presence bits with their index.
    pub closed spec fn index(&self) -> RankSupport {
        self.rs
    }

    /// The table with the presence bits `rs` and codes of `width` bits, if
    /// the bits are those of the 128 ASCII characters, one of them is
    /// present, and the width is the least that holds every code.
    pub fn from_parts(rs: RankSupport, width: usize) -> (res: Option<Self>)
        requires
            rs.wf(),
        ensures
            res is Some <==> rs@.len() == 128 && count_set(rs@) >= 1 && width == ceil_log2(
                count_set(rs@),
            ),
            res matches Some(ct) ==> ct.wf() && ct@ == rs@ && ct.spec_width() == width
                && ct.index() == rs,
    {
        if rs.len() != 128 {
            return None;
        }
        assert(rs@.take(128) =~= rs@);
        let sigma = rs.rank1(127);
        if sigma < 1 {
            return None;
        }
        if clog(sigma) != width {
            return None;
        }
        Some(Self { rs: rs, width: width })
    }

    /// The presence bits with their index.
    pub fn rank_support(&self) -> (rs: &RankSupport)
        ensures
            *rs == self.index(),
    {
        &self.rs
    }

    /// The number of bits of a code.
    pub fn width(&self) -> (w: usize)
        ensures
            w == self.spec_width(),
    {
        self.width
    }

    /// The size in bytes: the struct and the indexed presence bits.
    pub open spec fn spec_size_of(&self) -> nat {
        vstd::layout::size_of::<CharTable>() + self.index().spec_size_of()
    }

    /// The size in bytes.
    pub fn size_of(&self) -> (bytes: usize)
        requires
            self.wf(),
            self.spec_size_of() <= usize::MAX,
        ensures
            bytes == self.spec_size_of(),
    {
        let mut size = std::mem::size_of::<Self>();
        size += self.rs.size_of();
        size
    }

    /// The number of characters in the alphabet.
    pub fn n_chars(&self) -> (n: usize)
        requires
            self.wf(),
        ensures
            n == self.sigma(),
    {
        assert(self@.take(128) =~= self@);
        self.rs.rank1(127)
    }
}

impl Clone for CharTable {
    /// A copy with the same alphabet.
    fn clone(&self) -> (ct: Self)
        ensures
            ct@ == self@,
            ct.spec_width() == self.spec_width(),
            self.wf() ==> ct.wf(),
    {
        CharTable { rs: self.rs.clone(), width: self.width }
    }
}

/// A wavelet tree over an ASCII text.
pub struct WT {
    n: usize,
    bv: Vec<RankSupport>,
    char_table: CharTable,
    text: Ghost<Seq<char>>,
}

impl View for WT {
    type V = Seq<char>;

    /// The text that the tree stands for.
    closed spec fn view(&self) -> Seq<char> {
        self.text@
    }
}

/// `levels` and `table` are the wavelet tree of `text`: the text is ASCII
/// and has a character, the table is its alphabet, and there is a level for
/// each bit of a code, the most significant first.
pub open spec fn is_tree_of(text: Seq<char>, levels: Seq<RankSupport>, table: CharTable) -> bool {
    &&& 1 <= text.len() <= max_len()
    &&& index_fits(text.len())
    &&& is_ascii_chars(text)
    &&& table.wf()
    &&& table@ == presence_of(text)
    &&& levels.len() == table.spec_width()
    &&& forall|l: int|
        0 <= l < levels.len() ==> (#[trigger] levels[l]).wf() && level_ok(
            codes_of(text, table@),
            pow2((table.spec_width() - 1 - l) as nat),
            levels[l]@,
        )
}

/// Level `l` of `levels` is the level with step `2^(w - 1 - l)` of the text with these codes.
spec fn levels_ok(codes: Seq<nat>, w: nat, levels: Seq<RankSupport>, upto: int) -> bool {
    forall|l: int|
        0 <= l < upto ==> (#[trigger] levels[l]).wf() && level_ok(
            codes,
            pow2((w - 1 - l) as nat),
            levels[l]@,
        )
}

/// The interval of the group of a code on one level, and the next level's divisor.
proof fn lemma_descend(codes: Seq<nat>, h: nat, bits: Seq<bool>, c: nat, i: nat)
    requires
        h >= 1,
        level_ok(codes, h, bits),
        i <= codes.len(),
    ensures
        ({
            let n = codes.len();
            let p = c / (2 * h);
            let q = c / h;
            let b = (c / h) % 2 == 1;
            let l = cnt_lt(codes, 2 * h, p, n);
            let r = l + cnt_eq(codes, 2 * h, p, n);
            &&& r <= n
            &&& l + cnt_eq(codes, 2 * h, p, i) <= r
            &&& q == 2 * p + bit_val(b)
            &&& count_bit(bits.subrange(l as int, (l + cnt_eq(codes, 2 * h, p, i)) as int), b)
                == cnt_eq(codes, h, q, i)
            &&& count_bit(bits.subrange(l as int, r as int), false) == cnt_eq(codes, h, 2 * p, n)
            &&& count_bit(bits.subrange(l as int, r as int), true) == cnt_eq(
                codes,
                h,
                2 * p + 1,
                n,
            )
            &&& cnt_lt(codes, h, q, n) == l + if b {
                cnt_eq(codes, h, 2 * p, n)
            } else {
                0
            }
            &&& cnt_lt(codes, h, q, n) + cnt_eq(codes, h, q, n) == r - if b {
                0
            } else {
                cnt_eq(codes, h, 2 * p + 1, n)
            }
        }),
{
    let n = codes.len();
    let p = c / (2 * h);
    let b = (c / h) % 2 == 1;
    lemma_key_split(c, h);
    lemma_level_counts(codes, h, bits, p, b, i);
    lemma_level_counts(codes, h, bits, p, false, n);
    lemma_level_counts(codes, h, bits, p, true, n);
    lemma_cnt_refine(codes, h, p, n);
    lemma_cnt_basics(codes, 2 * h, p, i, n);
}

/// One step down the tree, whatever the bits of the level are: the
/// interval and the rank in it stay an interval and a rank in it.
proof fn lemma_walk_step(bits: Seq<bool>, l: int, r: int, rank: int)
    requires
        0 <= l < r <= bits.len(),
        1 <= rank <= r - l,
    ensures
        ({
            let b = bits[l + rank - 1];
            let next = count_bit(bits.subrange(l, l + rank), b);
            let zeros = count_bit(bits.subrange(l, r), false);
            let ones = count_bit(bits.subrange(l, r), true);
            &&& zeros + ones == r - l
            &&& 1 <= next
            &&& next <= if b {
                ones
            } else {
                zeros
            }
        }),
{
    let b = bits[l + rank - 1];
    let head = bits.subrange(l, l + rank);
    let tail = bits.subrange(l + rank, r);
    assert(bits.subrange(l, r) =~= head + tail);
    lemma_count_bit_concat(head, tail, b);
    lemma_count_set_bound(bits.subrange(l, r));
    lemma_count_set_bound(head);
    assert(head.drop_last() =~= bits.subrange(l, l + rank - 1));
    lemma_count_set_bound(head.drop_last());
}

/// The quotients of the codes of a text by `2^w` are all zero, so on the top
/// level the whole text is one group.
proof fn lemma_top_group(text: Seq<char>, w: nat, i: nat, c: nat)
    requires
        is_ascii_chars(text),
        count_set(presence_of(text)) <= pow2(w),
        i <= text.len(),
        c < count_set(presence_of(text)),
    ensures
        cnt_lt(codes_of(text, presence_of(text)), pow2(w), 0, text.len()) == 0,
        cnt_eq(codes_of(text, presence_of(text)), pow2(w), 0, i) == i,
        c / pow2(w) == 0,
{
    let codes = codes_of(text, presence_of(text));
    let d = pow2(w);
    lemma_pow2_pos(w);
    lemma_cnt_lt_zero(codes, d, text.len());
    assert forall|j: int| 0 <= j < text.len() implies codes[j] / d == 0 by {
        lemma_codes_bound(text, j);
        vstd::arithmetic::div_mod::lemma_basic_div(codes[j] as int, d as int);
    }
    lemma_cnt_eq_all(codes, d, 0, i);
    vstd::arithmetic::div_mod::lemma_basic_div(c as int, d as int);
}

/// A character of the alphabet stands somewhere in the text, so its group
/// on every level has a member.
proof fn lemma_group_nonempty(text: Seq<char>, c: char, d: nat)
    requires
        is_ascii_chars(text),
        (c as int) < 128,
        presence_of(text)[c as int],
        d >= 1,
    ensures
        cnt_eq(
            codes_of(text, presence_of(text)),
            d,
            code_of(presence_of(text), c as int) / d,
            text.len(),
        ) >= 1,
{
    let codes = codes_of(text, presence_of(text));
    let p = code_of(presence_of(text), c as int) / d;
    let j = choose|j: int| 0 <= j < text.len() && text[j] as int == c as int;
    lemma_cnt_basics(codes, d, p, (j + 1) as nat, text.len());
    lemma_cnt_basics(codes, d, p, 0, j as nat);
    assert(cnt_eq(codes, d, p, (j + 1) as nat) == cnt_eq(codes, d, p, j as nat) + 1);
}

/// Where the alphabet has one character, the text repeats it.
proof fn lemma_single_symbol(text: Seq<char>, c: char, i: nat)
    requires
        is_ascii_chars(text),
        (c as int) < 128,
        presence_of(text)[c as int],
        count_set(presence_of(text)) <= 1,
        i <= text.len(),
    ensures
        occurrences(text, c, i) == i,
    decreases i,
{
    if i > 0 {
        lemma_single_symbol(text, c, (i - 1) as nat);
        lemma_codes_bound(text, i - 1);
        lemma_code_bound(presence_of(text), c as int);
        lemma_code_injective(presence_of(text), text[i - 1], c);
    }
}

/// One step of select, from a level to the level above: the place of a
/// symbol in its group becomes its place in the group above, and a place
/// behind the group stays behind the group above.
proof fn lemma_ascend(
    codes: Seq<nat>,
    h: nat,
    bits: Seq<bool>,
    code: nat,
    b: bool,
    idx: nat,
    found: bool,
    target: int,
    res: Option<usize>,
)
    requires
        h >= 1,
        level_ok(codes, h, bits),
        b == ((code / h) % 2 == 1),
        found ==> 0 <= target < codes.len() && codes[target] == code && idx == cnt_eq(
            codes,
            h,
            code / h,
            target as nat,
        ),
        !found ==> idx >= cnt_eq(codes, h, code / h, codes.len()),
        cnt_lt(codes, 2 * h, code / (2 * h), codes.len()) <= codes.len(),
        res matches Some(q) ==> is_select(
            bits.subrange(
                cnt_lt(codes, 2 * h, code / (2 * h), codes.len()) as int,
                codes.len() as int,
            ),
            b,
            idx + 1,
            q as int,
        ),
        res is None <==> idx + 1 > count_bit(
            bits.subrange(
                cnt_lt(codes, 2 * h, code / (2 * h), codes.len()) as int,
                codes.len() as int,
            ),
            b,
        ),
    ensures
        found ==> res is Some && res->0 == cnt_eq(codes, 2 * h, code / (2 * h), target as nat),
        !found ==> (res matches Some(q) ==> q >= cnt_eq(
            codes,
            2 * h,
            code / (2 * h),
            codes.len(),
        )),
        res matches Some(q) ==> q < codes.len(),
{
    let n = codes.len();
    let p = code / (2 * h);
    let l0 = cnt_lt(codes, 2 * h, p, n) as int;
    let rest = bits.subrange(l0, n as int);
    let group = cnt_eq(codes, 2 * h, p, n) as int;
    lemma_key_split(code, h);
    lemma_descend(codes, h, bits, code, n);
    if found {
        // the target's place in its group is the occurrence that was asked for
        lemma_descend(codes, h, bits, code, (target + 1) as nat);
        lemma_level_pos_bound(codes, 2 * h, target);
        lemma_cnt_basics(codes, 2 * h, p, (target + 1) as nat, n);
        let q = cnt_eq(codes, 2 * h, p, target as nat) as int;
        assert(cnt_eq(codes, 2 * h, p, (target + 1) as nat) == q + 1);
        assert(cnt_eq(codes, h, code / h, (target + 1) as nat) == idx + 1);
        assert(level_pos(codes, 2 * h, target) == l0 + q);
        assert(rest.take(q + 1) =~= bits.subrange(l0, l0 + q + 1));
        assert(is_select(rest, b, idx + 1, q));
        crate::rank_select::lemma_select_range(rest, b, idx + 1, q);
        if let Some(v) = res {
            lemma_select_unique(rest, b, idx + 1, q, v as int);
        }
    } else if let Some(v) = res {
        // too many were asked for: the answer lies behind the group
        if v < group {
            assert(rest.take(v + 1) =~= bits.subrange(l0, l0 + v + 1));
            assert(bits.subrange(l0, l0 + group) =~= bits.subrange(l0, l0 + v + 1)
                + bits.subrange(l0 + v + 1, l0 + group));
            lemma_count_bit_concat(
                bits.subrange(l0, l0 + v + 1),
                bits.subrange(l0 + v + 1, l0 + group),
                b,
            );
        }
    }
}

/// `String::push` of the standard library, which appends a character to
/// the end of a string: the contract says that the string afterwards is
/// the string before with `c` behind it.
#[verifier::external_body]
fn push_char(s: &mut String, c: char)
    ensures
        final(s)@ == old(s)@.push(c),
{
    s.push(c)
}

/// A character with a number below 128 is an ASCII character.
proof fn lemma_char_below(c: char)
    ensures
        (c as int) < 128 ==> c <= '\u{7f}',
{
}

impl WT {
    /// The tree is the wavelet tree of its text.
    pub closed spec fn wf(&self) -> bool {
        &&& self.n == self.text@.len()
        &&& is_tree_of(self.text@, self.bv@, self.char_table)
    }

    /// The alphabet of the text.
    pub closed spec fn spec_table(&self) -> CharTable {
        self.char_table
    }

    /// The levels, top first.
    pub closed spec fn spec_levels(&self) -> Seq<RankSupport> {
        self.bv@
    }

    /// What being well-formed means, for use outside this module.
    pub proof fn lemma_wf(&self)
        requires
            self.wf(),
        ensures
            is_tree_of(self@, self.spec_levels(), self.spec_table()),
    {
    }

    /// The levels are as many as a code has bits and as long as the text,
    /// whatever their bits are.
    spec fn shape(&self) -> bool {
        &&& 1 <= self.n
        &&& self.char_table.wf()
        &&& self.bv@.len() == self.char_table.spec_width()
        &&& forall|l: int|
            0 <= l < self.bv@.len() ==> (#[trigger] self.bv@[l]).wf() && self.bv@[l]@.len()
                == self.n
    }

    /// The code that the levels spell for position `i`, bit by bit from
    /// the top: in a tree, the code of the character at that position.
    fn code_at(&self, i: usize) -> (code: usize)
        requires
            self.shape(),
            i < self.n,
        ensures
            code < 128,
            self.wf() ==> code == codes_of(self.text@, self.char_table@)[i as int],
    {
        let ghost text = self.text@;
        let ghost present = self.char_table@;
        let ghost codes = codes_of(text, present);
        let ghost w = self.char_table.spec_width();
        let ghost code = codes[i as int];
        let mut l: usize = 0;
        let mut r: usize = self.n;
        let last_l = self.char_table.width;
        let mut curr_rank: usize = i + 1;

        let mut char_i = 0_usize;
        proof {
            self.char_table.lemma_wf();
            lemma2_to64();
            if self.wf() {
                lemma_codes_bound(text, i as int);
                lemma_top_group(text, w, self.n as nat, code);
                lemma_top_group(text, w, i as nat, code);
            }
        }
        let mut lev: usize = 0;
        while lev < last_l
            invariant
                self.shape(),
                text == self.text@,
                present == self.char_table@,
                codes == codes_of(text, present),
                w == self.char_table.spec_width() == last_l,
                w <= 7,
                i < self.n,
                code == codes[i as int],
                lev <= last_l,
                l < r <= self.n,
                1 <= curr_rank <= r - l,
                char_i < pow2(lev as nat),
                self.wf() ==> {
                    &&& code < 128
                    &&& char_i == code / pow2((w - lev) as nat)
                    &&& l == cnt_lt(codes, pow2((w - lev) as nat), char_i as nat, self.n as nat)
                    &&& r == l + cnt_eq(
                        codes,
                        pow2((w - lev) as nat),
                        char_i as nat,
                        self.n as nat,
                    )
                    &&& curr_rank == cnt_eq(codes, pow2((w - lev) as nat), char_i as nat, i as nat)
                        + 1
                },
            decreases last_l - lev,
        {
            let ghost h = pow2((w - 1 - lev) as nat);
            let ghost p = char_i as nat;
            proof {
                lemma_pow2_pos((w - 1 - lev) as nat);
                lemma_pow2_unfold((w - lev) as nat);
                lemma_pow2_unfold((lev + 1) as nat);
                lemma_pow2_strictly_increases(lev as nat, 7);
                lemma2_to64();
                assert(self.bv@[lev as int].wf());
                lemma_walk_step(self.bv@[lev as int]@, l as int, r as int, curr_rank as int);
                if self.wf() {
                    assert(level_ok(codes, h, self.bv@[lev as int]@));
                    lemma_descend(codes, h, self.bv@[lev as int]@, code, (i + 1) as nat);
                    lemma_level_pos_bound(codes, 2 * h, i as int);
                    lemma_cnt_basics(codes, 2 * h, p, (i + 1) as nat, self.n as nat);
                    assert(level_pos(codes, 2 * h, i as int) == l + curr_rank - 1);
                }
            }
            // look at the bit I care about (The rank in the interval in this level)
            let curr_bit = self.bv[lev].get(l + curr_rank - 1);

            // Shift and set lowest order bit.
            proof {
                assert(char_i << 1usize == char_i * 2) by (bit_vector)
                    requires
                        char_i < 128,
                ;
            }
            if curr_bit {
                char_i = (char_i << 1) + 1
            } else {
                char_i = char_i << 1
            }
            // Update the rank to look at in next level

            curr_rank = self.bv[lev].rel_rank(curr_bit, l, curr_rank - 1);

            // Figure out the offset for the next level
            if curr_bit {
                // go right
                // count the zeros to get to the offset
                l += self.bv[lev].rel_rank(false, l, r - l - 1);
            } else {
                // go left
                r -= self.bv[lev].rel_rank(true, l, r - l - 1);
            }
            lev += 1;
        }
        proof {
            lemma2_to64();
            lemma_pow2_strictly_increases(lev as nat, 8);
            if self.wf() {
                vstd::arithmetic::div_mod::lemma_div_basics(code as int);
            }
        }
        char_i
    }

    /// The character at position `i` of the text.
    pub fn access(&self, i: usize) -> (c: char)
        requires
            self.wf(),
            i < self@.len(),
        ensures
            c == self@[i as int],
    {
        proof {
            self.char_table.lemma_wf();
            lemma_codes_bound(self.text@, i as int);
        }
        if self.bv.len() == 0 {
            proof {
                lemma2_to64();
            }
            let c = self.char_table.get_char(0);
            proof {
                lemma_code_injective(self.char_table@, c, self.text@[i as int]);
            }
            return c;
        }
        let char_i = self.code_at(i);
        let c = self.char_table.get_char(char_i);
        proof {
            lemma_code_injective(self.char_table@, c, self.text@[i as int]);
        }
        c
    }

    /// How many times `c` occurs in the text up to and including position `i`.
    pub fn rank(&self, c: char, i: usize) -> (r: usize)
        requires
            self.wf(),
            self.spec_table().contains(c),
            i < self@.len(),
        ensures
            r == occurrences(self@, c, (i + 1) as nat),
    {
        let ghost text = self.text@;
        let ghost present = self.char_table@;
        let ghost codes = codes_of(text, present);
        let ghost w = self.char_table.spec_width();
        let ghost code = code_of(present, c as int);
        proof {
            self.char_table.lemma_wf();
            lemma2_to64();
            lemma_code_bound(present, c as int);
        }
        if self.bv.len() == 0 {
            proof {
                lemma_single_symbol(text, c, (i + 1) as nat);
            }
            return i + 1
        }
        let mut l: usize = 0;
        let mut r: usize = self.n;
        let last_l = self.char_table.width;
        let mut curr_rank: usize = i + 1;
        proof {
            lemma_top_group(text, w, self.n as nat, code);
            lemma_top_group(text, w, (i + 1) as nat, code);
        }
        let mut lev: usize = 0;
        while lev < last_l
            invariant
                self.wf(),
                text == self.text@,
                present == self.char_table@,
                codes == codes_of(text, present),
                w == self.char_table.spec_width() == last_l,
                w <= 7,
                i < self.n,
                self.char_table.contains(c),
                code == code_of(present, c as int),
                code < 128,
                lev <= last_l,
                l == cnt_lt(codes, pow2((w - lev) as nat), code / pow2((w - lev) as nat), self.n as nat),
                r == l + cnt_eq(
                    codes,
                    pow2((w - lev) as nat),
                    code / pow2((w - lev) as nat),
                    self.n as nat,
                ),
                curr_rank == cnt_eq(
                    codes,
                    pow2((w - lev) as nat),
                    code / pow2((w - lev) as nat),
                    (i + 1) as nat,
                ),
                curr_rank >= 1,
            decreases last_l - lev,
        {
            let ghost h = pow2((w - 1 - lev) as nat);
            let ghost p = code / (2 * h);
            proof {
                lemma_pow2_pos((w - 1 - lev) as nat);
                lemma_pow2_unfold((w - lev) as nat);
                assert(self.bv@[lev as int].wf() && level_ok(codes, h, self.bv@[lev as int]@));
                lemma_descend(codes, h, self.bv@[lev as int]@, code, (i + 1) as nat);
                lemma_group_nonempty(text, c, 2 * h);
                lemma_group_nonempty(text, c, h);
                lemma_cnt_basics(codes, 2 * h, p, (i + 1) as nat, self.n as nat);
            }
            // Get next highest order bit to figure out traversal
            let curr_bit = self.char_table.get_bit(lev, c);

            // Update the rank to look at in next level
            curr_rank = self.bv[lev].rel_rank(curr_bit, l, curr_rank - 1);

            // if the rank is 0 in the chunk then we can just return 0.
            if curr_rank == 0 {
                proof {
                    lemma_cnt_eq_coarser(codes, h, code, (i + 1) as nat);
                    lemma_codes_count(text, c, (i + 1) as nat);
                }
                return curr_rank
            }
            // Figure out the offset for the next level

            if curr_bit {
                // go right
                // count the zeros to get to the offset
                l += self.bv[lev].rel_rank(false, l, r - l - 1);
            } else {
                // go left
                r -= self.bv[lev].rel_rank(true, l, r - l - 1);
            }
            lev += 1;
        }
        proof {
            lemma2_to64();
            vstd::arithmetic::div_mod::lemma_div_basics(code as int);
            lemma_codes_count(text, c, (i + 1) as nat);
        }
        curr_rank
    }

    /// The position of the `rank`-th occurrence of `c` in the text, counted
    /// from one; `None` if the text has fewer.
    pub fn select(&self, c: char, rank: usize) -> (res: Option<usize>)
        requires
            self.wf(),
            self.spec_table().contains(c),
        ensures
            res matches Some(j) ==> is_occurrence(self@, c, rank as nat, j as int),
            res is None <==> (rank == 0 || rank > occurrences(self@, c, self@.len())),
    {
        let ghost text = self.text@;
        let ghost present = self.char_table@;
        let ghost codes = codes_of(text, present);
        let ghost w = self.char_table.spec_width();
        let ghost code = code_of(present, c as int);
        let ghost total = occurrences(text, c, text.len());
        proof {
            self.char_table.lemma_wf();
            lemma2_to64();
            lemma_code_bound(present, c as int);
            lemma_occurrences_monotonic(text, c, 0, text.len());
        }
        if rank == 0 {
            return None;
        }
        if self.bv.len() == 0 {
            proof {
                lemma_single_symbol(text, c, self.n as nat);
                if rank <= self.n {
                    lemma_single_symbol(text, c, rank as nat);
                    lemma_codes_bound(text, rank - 1);
                    lemma_code_injective(present, text[rank - 1], c);
                }
            }
            if rank > self.n {
                return None;
            }
            return Some(rank - 1)
        }
        let mut l: usize = 0;
        let mut r: usize = self.n;
        let last_l = self.char_table.width;
        let mut curr_bit: bool;
        let mut stack: Vec<(usize, bool)> = vec![];
        proof {
            lemma_top_group(text, w, self.n as nat, code);
        }
        let mut lev: usize = 0;
        while lev < last_l
            invariant
                self.wf(),
                text == self.text@,
                present == self.char_table@,
                codes == codes_of(text, present),
                w == self.char_table.spec_width() == last_l,
                w <= 7,
                self.char_table.contains(c),
                code == code_of(present, c as int),
                code < 128,
                lev <= last_l,
                l == cnt_lt(codes, pow2((w - lev) as nat), code / pow2((w - lev) as nat), self.n as nat),
                r == l + cnt_eq(
                    codes,
                    pow2((w - lev) as nat),
                    code / pow2((w - lev) as nat),
                    self.n as nat,
                ),
                stack@.len() == lev,
                forall|k: int|
                    0 <= k < lev ==> (#[trigger] stack@[k]).0 == cnt_lt(
                        codes,
                        pow2((w - k) as nat),
                        code / pow2((w - k) as nat),
                        self.n as nat,
                    ) && stack@[k].1 == ((code / pow2((w - 1 - k) as nat)) % 2 == 1),
            decreases last_l - lev,
        {
            let ghost h = pow2((w - 1 - lev) as nat);
            proof {
                lemma_pow2_pos((w - 1 - lev) as nat);
                lemma_pow2_unfold((w - lev) as nat);
                assert(self.bv@[lev as int].wf() && level_ok(codes, h, self.bv@[lev as int]@));
                lemma_descend(codes, h, self.bv@[lev as int]@, code, 0);
                lemma_group_nonempty(text, c, 2 * h);
            }
            // Get next highest order bit to figure out traversal
            curr_bit = self.char_table.get_bit(lev, c);

            // Push the offset and the current bit onto the stack
            stack.push((l, curr_bit));

            // Figure out the offset for the next level
            if curr_bit {
                // go right
                // count the zeros to get to the offset
                l += self.bv[lev].rel_rank(false, l, r - l - 1);
            } else {
                // go left
                r -= self.bv[lev].rel_rank(true, l, r - l - 1);
            }
            lev += 1;
        }

        // Go from bottom to top, popping the stack..
        // Start with the index in the bottom interval as rank-1
        let mut curr_index = rank - 1;
        let ghost found = rank <= total;
        let ghost target: int = if found {
            lemma_occurrence_exists(text, c, rank as nat, text.len())
        } else {
            0
        };
        proof {
            lemma_codes_count(text, c, self.n as nat);
            vstd::arithmetic::div_mod::lemma_div_basics(code as int);
            if found {
                lemma_codes_count(text, c, target as nat);
                lemma_codes_count(text, c, (target + 1) as nat);
                lemma_codes_bound(text, target);
            }
        }
        let mut k: usize = 0;
        while k < last_l
            invariant
                self.wf(),
                text == self.text@,
                present == self.char_table@,
                codes == codes_of(text, present),
                w == self.char_table.spec_width() == last_l,
                1 <= w <= 7,
                self.char_table.contains(c),
                code == code_of(present, c as int),
                code < 128,
                k <= last_l,
                stack@.len() == last_l - k,
                forall|m: int|
                    0 <= m < last_l - k ==> (#[trigger] stack@[m]).0 == cnt_lt(
                        codes,
                        pow2((w - m) as nat),
                        code / pow2((w - m) as nat),
                        self.n as nat,
                    ) && stack@[m].1 == ((code / pow2((w - 1 - m) as nat)) % 2 == 1),
                found == (rank <= total),
                total == occurrences(text, c, text.len()),
                rank >= 1,
                found ==> is_occurrence(text, c, rank as nat, target) && codes[target] == code,
                found ==> curr_index == cnt_eq(
                    codes,
                    pow2(k as nat),
                    code / pow2(k as nat),
                    target as nat,
                ),
                !found ==> curr_index >= cnt_eq(
                    codes,
                    pow2(k as nat),
                    code / pow2(k as nat),
                    self.n as nat,
                ),
                curr_index < usize::MAX,
                k > 0 ==> curr_index < self.n,
            decreases last_l - k,
        {
            // Get offset and corresponding bit in the next level up
            let ghost pushed = stack@;
            let lb = stack.pop().unwrap();
            let ghost lev = (last_l - 1 - k) as int;
            let ghost h = pow2(k as nat);
            let ghost p = code / (2 * h);
            let ghost bits = self.bv@[lev]@;
            proof {
                lemma_pow2_pos(k as nat);
                lemma_pow2_unfold((k + 1) as nat);
                assert(self.bv@[lev].wf() && level_ok(codes, h, bits));
                assert(lb == pushed[lev]);
                lemma_descend(codes, h, bits, code, 0);
            }
            // The next index to look at is the select of rank=(curr_index + 1)
            let option = self.bv[last_l - 1 - k].rel_select(lb.1, lb.0, curr_index + 1);
            proof {
                lemma_ascend(codes, h, bits, code, lb.1, curr_index as nat, found, target, option);
            }
            if option.is_none() {
                return None
            }
            curr_index = option.unwrap();
            k += 1;
        }
        proof {
            lemma_top_group(text, w, self.n as nat, code);
            if found {
                lemma_top_group(text, w, target as nat, code);
            }
        }
        Some(curr_index)
    }

    /// The size in bytes: the struct, the levels, each taken to be as
    /// large as the first, and the table.
    pub open spec fn spec_size_of(&self) -> nat {
        vstd::layout::size_of::<WT>() + (if self.spec_levels().len() == 0 {
            0
        } else {
            self.spec_levels().len() * self.spec_levels()[0].spec_size_of()
        }) + self.spec_table().spec_size_of()
    }

    /// The size in bytes.
    pub fn size_of(&self) -> (bytes: usize)
        requires
            self.wf(),
            self.spec_size_of() <= usize::MAX,
        ensures
            bytes == self.spec_size_of(),
    {
        // Size of struct in bytes
        let mut size = std::mem::size_of::<Self>();
        if self.bv.len() > 0 {
            proof {
                assert(self.bv@[0].wf());
                assert(self.bv@[0].spec_size_of() <= self.bv@.len() * self.bv@[0].spec_size_of())
                    by (nonlinear_arith)
                    requires
                        self.bv@.len() >= 1,
                ;
            }
            size += self.bv.len() * self.bv[0].size_of();
        }
        size += self.char_table.size_of();
        size
    }

    /// The levels, top first.
    pub fn levels(&self) -> (levels: &Vec<RankSupport>)
        ensures
            levels@ == self.spec_levels(),
    {
        &self.bv
    }

    /// The alphabet of the text.
    pub fn char_table(&self) -> (table: &CharTable)
        ensures
            *table == self.spec_table(),
    {
        &self.char_table
    }

    /// The tree with the given levels and table over a text of `n`
    /// characters, if there is a text that they are the tree of.
    #[verifier::loop_isolation(false)]
    pub fn from_parts(n: usize, levels: Vec<RankSupport>, table: CharTable) -> (res: Option<Self>)
        requires
            table.wf(),
            forall|l: int| 0 <= l < levels@.len() ==> (#[trigger] levels@[l]).wf(),
        ensures
            res is Some <==> exists|text: Seq<char>|
                text.len() == n && #[trigger] is_tree_of(text, levels@, table),
            res matches Some(wt) ==> wt.wf() && wt@.len() == n && wt.spec_table()@ == table@
                && wt.spec_levels().len() == levels@.len() && forall|l: int|
                0 <= l < levels@.len() ==> (#[trigger] wt.spec_levels()[l])@ == levels@[l]@,
    {
        let ghost levels0 = levels@;
        let ghost table0 = table;
        let ghost witness = choose|text: Seq<char>|
            text.len() == n && #[trigger] is_tree_of(text, levels0, table0);
        let ghost valid = witness.len() == n && is_tree_of(witness, levels0, table0);
        assert(valid == exists|text: Seq<char>|
            text.len() == n && #[trigger] is_tree_of(text, levels0, table0));
        if !RankSupport::can_index(n) || levels.len() != table.width() {
            return None;
        }
        let mut l: usize = 0;
        while l < levels.len()
            invariant
                l <= levels@.len(),
                levels@ == levels0,
                table == table0,
                forall|k: int| 0 <= k < levels@.len() ==> (#[trigger] levels@[k]).wf(),
                forall|k: int| 0 <= k < l ==> (#[trigger] levels@[k])@.len() == n,
                valid == (witness.len() == n && is_tree_of(witness, levels0, table0)),
                valid == exists|text: Seq<char>|
                    text.len() == n && #[trigger] is_tree_of(text, levels0, table0),
            decreases levels@.len() - l,
        {
            if levels[l].len() != n {
                assert(levels0[l as int].wf());
                return None;
            }
            l += 1;
        }
        let raw = WT { n: n, bv: levels, char_table: table, text: Ghost(witness) };
        assert(valid ==> raw.wf());
        // the text that the levels spell
        let mut text = String::new();
        let sigma = raw.char_table.n_chars();
        let mut i: usize = 0;
        while i < n
            invariant
                raw.shape(),
                raw.n == n,
                raw.text@ == witness,
                raw.bv@ == levels0,
                raw.char_table == table0,
                valid == (witness.len() == n && is_tree_of(witness, levels0, table0)),
                valid == exists|text: Seq<char>|
                    text.len() == n && #[trigger] is_tree_of(text, levels0, table0),
                valid ==> raw.wf(),
                sigma == raw.char_table.sigma(),
                i <= n,
                text@.len() == i,
                is_ascii_chars(text@),
                valid ==> text@ == witness.take(i as int),
            decreases n - i,
        {
            let code = raw.code_at(i);
            proof {
                if valid {
                    lemma_codes_bound(witness, i as int);
                }
            }
            if code >= sigma {
                return None;
            }
            let c = raw.char_table.get_char(code);
            proof {
                if valid {
                    lemma_code_injective(raw.char_table@, c, witness[i as int]);
                    assert(witness.take(i + 1) =~= witness.take(i as int).push(witness[i as int]));
                }
                lemma_char_below(c);
            }
            push_char(&mut text, c);
            i += 1;
        }
        proof {
            if valid {
                assert(witness.take(n as int) =~= witness);
            }
        }
        let wt = WT::new(text.as_str());
        // the tree of that text is the tree that was given, or there is none
        proof {
            wt.char_table.rs.lemma_wf();
            raw.char_table.rs.lemma_wf();
            wt.char_table.lemma_wf();
            raw.char_table.lemma_wf();
        }
        if !wt.char_table.rs.bits().same(raw.char_table.rs.bits()) {
            return None;
        }
        let mut l: usize = 0;
        while l < raw.bv.len()
            invariant
                raw.shape(),
                wt.wf(),
                wt@ == text@,
                wt@.len() == n,
                wt.char_table@ == raw.char_table@,
                wt.char_table.spec_width() == raw.char_table.spec_width(),
                wt.bv@.len() == raw.bv@.len(),
                raw.text@ == witness,
                raw.bv@ == levels0,
                raw.char_table == table0,
                valid == (witness.len() == n && is_tree_of(witness, levels0, table0)),
                valid == exists|text: Seq<char>|
                    text.len() == n && #[trigger] is_tree_of(text, levels0, table0),
                valid ==> text@ == witness,
                l <= raw.bv@.len(),
                forall|k: int| 0 <= k < l ==> (#[trigger] wt.bv@[k])@ == raw.bv@[k]@,
            decreases raw.bv@.len() - l,
        {
            proof {
                wt.bv@[l as int].lemma_wf();
                raw.bv@[l as int].lemma_wf();
                if valid {
                    lemma_pow2_pos((raw.char_table.spec_width() - 1 - l) as nat);
                    crate::levels::lemma_level_unique(
                        codes_of(witness, raw.char_table@),
                        pow2((raw.char_table.spec_width() - 1 - l) as nat),
                        wt.bv@[l as int]@,
                        raw.bv@[l as int]@,
                    );
                }
            }
            if !wt.bv[l].bits().same(raw.bv[l].bits()) {
                return None;
            }
            l += 1;
        }
        proof {
            assert(is_tree_of(wt@, wt.bv@, wt.char_table));
            assert forall|k: int| 0 <= k < raw.bv@.len() implies (#[trigger] raw.bv@[k]).wf()
                && level_ok(
                codes_of(wt@, raw.char_table@),
                pow2((raw.char_table.spec_width() - 1 - k) as nat),
                raw.bv@[k]@,
            ) by {
                assert(wt.bv@[k]@ == raw.bv@[k]@);
                assert(wt.bv@[k].wf());
            }
            assert(is_tree_of(wt@, levels0, table0));
        }
        Some(wt)
    }

    /// The number of distinct characters of the text.
    pub fn n_chars(&self) -> (n: usize)
        requires
            self.wf(),
        ensures
            n == count_set(presence_of(self@)),
    {
        self.char_table.n_chars()
    }

    /// The length of the text.
    pub fn len(&self) -> (n: usize)
        requires
            self.wf(),
        ensures
            n == self@.len(),
    {
        self.n
    }

    /// The wavelet tree of the ASCII text `s`.
    pub fn new(s: &str) -> (wt: Self)
        requires
            s.is_ascii(),
            1 <= s@.len() <= max_len(),
            index_fits(s@.len()),
        ensures
            wt.wf(),
            wt@ == s@,
    {
        WTBuilder::new(s).build().finish()
    }
}

/// Entry `k` of the histogram counts the symbols whose quotient by `d` is `k`.
spec fn hist_ok(hist: Seq<u32>, codes: Seq<nat>, d: nat, from: int, to: int) -> bool {
    forall|k: int| from <= k < to ==> #[trigger] hist[k] == cnt_eq(codes, d, k as nat, codes.len())
}

/// Entry `k` of the positions is where the next symbol of group `k` goes,
/// after `done` symbols of the text went to their places; the entry of a
/// group without a next symbol may hold anything.
spec fn spos_ok(spos: Seq<u32>, codes: Seq<nat>, d: nat, count: int, done: nat) -> bool {
    forall|k: int|
        0 <= k < count && cnt_lt(codes, d, k as nat, codes.len()) + cnt_eq(
            codes,
            d,
            k as nat,
            done,
        ) < codes.len() ==> #[trigger] spos[k] == cnt_lt(codes, d, k as nat, codes.len()) + cnt_eq(
            codes,
            d,
            k as nat,
            done,
        )
}

/// The first `done` symbols of the text have their bits at their places on
/// the level with step `h`.
spec fn placed(bits: Seq<bool>, codes: Seq<nat>, h: nat, done: int) -> bool {
    forall|j: int|
        0 <= j < done ==> bits[#[trigger] level_pos(codes, 2 * h, j) as int] == ((codes[j] / h) % 2
            == 1)
}

/// The levels from `from` to `to` of a builder are the levels of the text.
spec fn built_levels(codes: Seq<nat>, w: nat, levels: Seq<BitVec>, from: int, to: int) -> bool {
    forall|l: int|
        from <= l < to ==> level_ok(codes, pow2((w - 1 - l) as nat), (#[trigger] levels[l])@)
}

/// Where the alphabet has two characters or more, no group of a level
/// below the top holds the whole text.
proof fn lemma_group_proper(text: Seq<char>, w: nat, d: nat, p: nat)
    requires
        is_ascii_chars(text),
        count_set(presence_of(text)) >= 2,
        w == ceil_log2(count_set(presence_of(text))),
        1 <= d <= pow2((w - 1) as nat),
    ensures
        cnt_eq(codes_of(text, presence_of(text)), d, p, text.len()) < text.len(),
{
    let present = presence_of(text);
    let codes = codes_of(text, present);
    let sigma = count_set(present);
    assert(present.take(128) =~= present);
    lemma_ceil_log2_bounds(sigma);
    let c0 = lemma_code_onto(present, 0, 128);
    let c1 = lemma_code_onto(present, (sigma - 1) as nat, 128);
    let j0 = choose|j: int| 0 <= j < text.len() && text[j] as int == c0;
    let j1 = choose|j: int| 0 <= j < text.len() && text[j] as int == c1;
    assert(codes[j0] == 0);
    assert(codes[j1] == sigma - 1);
    vstd::arithmetic::div_mod::lemma_basic_div(0, d as int);
    vstd::arithmetic::div_mod::lemma_div_non_zero((sigma - 1) as int, d as int);
    if p == 0 {
        lemma_cnt_eq_misses(codes, d, p, text.len(), j1);
    } else {
        lemma_cnt_eq_misses(codes, d, p, text.len(), j0);
    }
}

/// A quotient of a number below `2^w` by `2^(w - l)` is below `2^l`.
proof fn lemma_prefix_bound(c: nat, w: nat, l: nat)
    requires
        c < pow2(w),
        l <= w,
    ensures
        c / pow2((w - l) as nat) < pow2(l),
{
    let d = pow2((w - l) as nat);
    lemma_pow2_pos((w - l) as nat);
    vstd::arithmetic::power2::lemma_pow2_adds((w - l) as nat, l);
    vstd::arithmetic::div_mod::lemma_fundamental_div_mod(c as int, d as int);
    vstd::arithmetic::div_mod::lemma_mod_bound(c as int, d as int);
    let q = c as int / d as int;
    let b = pow2(l) as int;
    assert(q < b) by (nonlinear_arith)
        requires
            c == d * q + c % d,
            0 <= c % d,
            c < d * b,
            d > 0,
    ;
}

/// Builds a wavelet tree from an ASCII text, level by level, with a
/// histogram of the codes and a table of starting positions.
#[derive(Debug)]
pub struct WTBuilder<'a> {
    s: &'a str,
    char_table: CharTable,
    l: usize,
    n_chars: usize,
    n: usize,
    bv: Vec<BitVec>,
    hist: IntVec,
    spos: IntVec,
}

impl<'a> WTBuilder<'a> {
    /// The text that is being built from.
    pub closed spec fn text(&self) -> Seq<char> {
        self.s@
    }

    /// The codes of the characters of the text.
    pub open spec fn codes(&self) -> Seq<nat> {
        codes_of(self.text(), presence_of(self.text()))
    }

    /// The number of levels: the number of bits of a code.
    pub closed spec fn width(&self) -> nat {
        self.l as nat
    }

    /// The histogram.
    pub closed spec fn hist_view(&self) -> Seq<u32> {
        self.hist@
    }

    /// The bits of the levels.
    pub closed spec fn level_views(&self) -> Seq<Seq<bool>> {
        Seq::new(self.bv@.len(), |k: int| self.bv@[k]@)
    }

    /// The parts of the builder fit each other and the text.
    pub closed spec fn wf(&self) -> bool {
        &&& is_ascii_chars(self.s@)
        &&& self.n == self.s@.len()
        &&& 1 <= self.n <= max_len()
        &&& index_fits(self.n as nat)
        &&& self.char_table.wf()
        &&& self.char_table@ == presence_of(self.s@)
        &&& self.l == self.char_table.spec_width()
        &&& self.n_chars == self.char_table.sigma()
        &&& self.bv@.len() == self.l
        &&& forall|k: int|
            0 <= k < self.l ==> (#[trigger] self.bv@[k]).wf() && self.bv@[k]@.len() == self.n
        &&& self.hist.wf()
        &&& self.spos.wf()
        &&& self.hist.width() == crate::rank_select::index_width(self.n as nat)
        &&& self.spos.width() == crate::rank_select::index_width(self.n as nat)
        &&& self.hist@.len() == pow2(self.l as nat)
        &&& self.spos@.len() == pow2(self.l as nat)
    }

    /// Nothing has been counted yet.
    pub open spec fn is_fresh(&self) -> bool {
        &&& self.wf()
        &&& forall|k: int| 0 <= k < self.hist_view().len() ==> self.hist_view()[k] == 0
    }

    /// Every level is the level of the text.
    pub open spec fn is_built(&self) -> bool {
        &&& self.wf()
        &&& forall|l: int|
            0 <= l < self.width() ==> level_ok(
                self.codes(),
                pow2((self.width() - 1 - l) as nat),
                #[trigger] self.level_views()[l],
            )
    }

    /// What being well-formed means, for use outside this module.
    pub proof fn lemma_wf(&self)
        requires
            self.wf(),
        ensures
            is_ascii_chars(self.text()),
            1 <= self.text().len() <= max_len(),
            self.width() == ceil_log2(count_set(presence_of(self.text()))),
            self.width() <= 7,
            self.hist_view().len() == pow2(self.width()),
            self.level_views().len() == self.width(),
            forall|k: int|
                0 <= k < self.width() ==> (#[trigger] self.level_views()[k]).len()
                    == self.text().len(),
    {
        self.char_table.lemma_wf();
    }

    /// A builder for the ASCII text `s`, with nothing counted yet.
    pub fn new(s: &'a str) -> (b: Self)
        requires
            s.is_ascii(),
            1 <= s@.len() <= max_len(),
            index_fits(s@.len()),
        ensures
            b.is_fresh(),
            b.text() == s@,
    {
        proof {
            vstd::string::is_ascii_spec_bytes(s);
            assert(occurs(s@, s@[0] as int));
            lemma_codes_bound(s@, 0);
        }
        let n = s.as_bytes().len();
        let n_chars = count_chars(s);
        let l = clog(n_chars);

        let ct = CharTable::new(s);
        proof {
            ct.lemma_wf();
            lemma_sizes(n as nat);
            lemma2_to64();
            vstd::bits::lemma_usize_shl_is_mul(1, l);
            lemma_pow2_strictly_increases(l as nat, 8);
        }

        // n log(sigma) for the bitvectors...
        let bv = vec![BitVec::new(n); l];

        let ln = clog(n);
        let w = if ln > 1 {
            ln
        } else {
            1
        };
        let size = 1_usize << l;  //oversize if log is not round
        assert(w * size <= 4096) by (nonlinear_arith)
            requires
                w <= 32,
                size <= 128,
        ;

        // sigma log(n) bits for HIST...
        let hist = IntVec::new(w, size);

        // sigma log(n) bits for starting positions of blocks
        let spos = IntVec::new(w, size);
        Self { s: s, n: n, char_table: ct, l: l, n_chars: n_chars, bv: bv, hist: hist, spos: spos }
    }

    /// The histogram.
    pub fn hist(&self) -> (h: &IntVec)
        requires
            self.wf(),
        ensures
            h.wf(),
            h@ == self.hist_view(),
            h.width() == crate::rank_select::index_width(self.text().len()),
    {
        &self.hist
    }

    /// The table of starting positions.
    pub fn spos(&self) -> (p: &IntVec)
        requires
            self.wf(),
        ensures
            p.wf(),
            p@.len() == pow2(self.width()),
            p.width() == crate::rank_select::index_width(self.text().len()),
    {
        &self.spos
    }

    /// The levels, top first.
    pub fn levels(&self) -> (v: &Vec<BitVec>)
        requires
            self.wf(),
        ensures
            v@.len() == self.width(),
            forall|k: int|
                0 <= k < v@.len() ==> (#[trigger] v@[k]).wf() && v@[k]@ == self.level_views()[k],
    {
        &self.bv
    }

    /// The character at position `j` of the text.
    fn char_at(&self, j: usize) -> (c: char)
        requires
            self.wf(),
            j < self.n,
        ensures
            c == self.s@[j as int],
            self.char_table.contains(c),
            self.char_table.code(c) == self.codes()[j as int],
            self.codes()[j as int] < pow2(self.l as nat),
    {
        proof {
            vstd::string::is_ascii_spec_bytes(self.s);
            lemma_codes_bound(self.s@, j as int);
            self.char_table.lemma_wf();
        }
        let b = self.s.as_bytes()[j];
        b as char
    }

    /// Counts the codes of the text into the histogram.
    pub fn init_hist(&mut self)
        requires
            old(self).is_fresh(),
            count_set(presence_of(old(self).text())) >= 2,
        ensures
            final(self).wf(),
            final(self).text() == old(self).text(),
            final(self).level_views() == old(self).level_views(),
            forall|k: int|
                0 <= k < pow2(final(self).width()) ==> #[trigger] final(self).hist_view()[k]
                    == cnt_eq(final(self).codes(), 1, k as nat, final(self).text().len()),
    {
        // Base histogram
        let ghost codes = self.codes();
        let mut j: usize = 0;
        let n = self.n;
        assert forall|k: int| 0 <= k < self.hist@.len() implies #[trigger] self.hist@[k] == 0 by {
            assert(self.hist_view()[k] == 0);
        }
        while j < n
            invariant
                self.wf(),
                n == self.n,
                j <= n,
                self.s@ == old(self).s@,
                self.bv@ == old(self).bv@,
                codes == self.codes(),
                count_set(presence_of(self.s@)) >= 2,
                forall|k: int|
                    0 <= k < self.hist@.len() ==> #[trigger] self.hist@[k] == cnt_eq(
                        codes,
                        1,
                        k as nat,
                        j as nat,
                    ),
            decreases n - j,
        {
            let c = self.char_at(j);
            let c_i = self.char_table.i(c);
            proof {
                self.char_table.lemma_wf();
                lemma_sizes(n as nat);
                lemma2_to64();
                vstd::arithmetic::div_mod::lemma_div_basics(codes[j as int] as int);
                lemma_pow2_pos((self.l - 1) as nat);
                lemma_group_proper(self.s@, self.l as nat, 1, c_i as nat);
                lemma_cnt_basics(codes, 1, c_i as nat, (j + 1) as nat, n as nat);
            }
            let count = self.hist.get_int(c_i);
            self.hist.set_int(c_i, count + 1);
            proof {
                assert forall|k: int| 0 <= k < self.hist@.len() implies #[trigger] self.hist@[k]
                    == cnt_eq(codes, 1, k as nat, (j + 1) as nat) by {
                    vstd::arithmetic::div_mod::lemma_div_basics(codes[j as int] as int);
                }
            }
            j += 1;
        }
    }

    /// Writes the top level: the top bit of the code of each character.
    pub fn init_bv(&mut self)
        requires
            old(self).wf(),
            old(self).width() >= 1,
        ensures
            final(self).wf(),
            final(self).text() == old(self).text(),
            final(self).hist_view() == old(self).hist_view(),
            final(self).level_views()[0] == Seq::new(
                final(self).text().len(),
                |i: int|
                    (final(self).codes()[i] / pow2((final(self).width() - 1) as nat)) % 2 == 1,
            ),
            forall|k: int|
                1 <= k < final(self).width() ==> final(self).level_views()[k] == old(
                    self,
                ).level_views()[k],
    {
        let ghost codes = self.codes();
        let mut i: usize = 0;
        let n = self.n;
        while i < n
            invariant
                self.wf(),
                self.l >= 1,
                n == self.n,
                i <= n,
                self.s@ == old(self).s@,
                self.hist@ == old(self).hist@,
                self.bv@.len() == old(self).bv@.len(),
                forall|k: int| 1 <= k < self.l ==> self.bv@[k] == old(self).bv@[k],
                codes == self.codes(),
                forall|j: int|
                    0 <= j < i ==> self.bv@[0]@[j] == ((codes[j] / pow2((self.l - 1) as nat)) % 2
                        == 1),
            decreases n - i,
        {
            let c = self.char_at(i);
            let b = self.char_table.get_bit(0, c);
            self.bv[0].set(i, b);
            i += 1;
        }
        proof {
            assert(self.level_views()[0] =~= Seq::new(
                self.text().len(),
                |i: int| (self.codes()[i] / pow2((self.width() - 1) as nat)) % 2 == 1,
            ));
        }
    }

    /// Builds the bit vectors of every level.
    pub fn build(&mut self) -> (built: &Self)
        requires
            old(self).is_fresh(),
        ensures
            final(self).is_built(),
            final(self).text() == old(self).text(),
            *built == *final(self),
    {
        proof {
            self.char_table.lemma_wf();
            lemma2_to64();
        }
        if self.n_chars == 1 {
            return self
        }
        self.init_hist();
        self.init_bv();
        let ghost codes = self.codes();
        let ghost text = self.s@;
        let n = self.n;
        let l = self.l;
        proof {
            lemma_top_group(text, l as nat, 0, 0);
            lemma_pow2_unfold(l as nat);
            lemma_pow2_pos((l - 1) as nat);
            assert forall|j: int| 0 <= j < n implies #[trigger] level_pos(
                codes,
                2 * pow2((l - 1) as nat),
                j,
            ) == j by {
                lemma_codes_bound(text, j);
                lemma_top_group(text, l as nat, j as nat, codes[j]);
            }
            assert(self.level_views()[0] == self.bv@[0]@);
            assert(level_ok(codes, pow2((l - 1) as nat), self.bv@[0]@));
        }
        // for [l-1 to 1]
        let mut it: usize = 0;
        while it < l - 1
            invariant
                self.wf(),
                self.s@ == old(self).s@,
                text == self.s@,
                codes == self.codes(),
                n == self.n,
                l == self.l,
                1 <= l <= 7,
                count_set(presence_of(text)) >= 2,
                it <= l - 1,
                hist_ok(self.hist@, codes, pow2(it as nat), 0, pow2((l - it) as nat) as int),
                built_levels(codes, l as nat, self.bv@, l - it, l as int),
                built_levels(codes, l as nat, self.bv@, 0, 1),
            decreases l - 1 - it,
        {
            let li = l - 1 - it;
            let ghost h = pow2(it as nat);
            let groups = 1usize << li;
            proof {
                lemma2_to64();
                lemma_pow2_strictly_increases(li as nat, 7);
                vstd::bits::lemma_usize_shl_is_mul(1, li);
                lemma_pow2_unfold((li + 1) as nat);
                lemma_pow2_unfold((it + 1) as nat);
                lemma_pow2_pos(it as nat);
                lemma_pow2_pos(li as nat);
                if li + 1 < l {
                    lemma_pow2_strictly_increases((li + 1) as nat, l as nat);
                }
                if it + 1 < l - 1 {
                    lemma_pow2_strictly_increases((it + 1) as nat, (l - 1) as nat);
                }
                lemma_sizes(n as nat);
            }

            // Histogram of the prefixes
            let mut i: usize = 0;
            while i < groups
                invariant
                    self.wf(),
                    self.s@ == old(self).s@,
                    text == self.s@,
                    codes == self.codes(),
                    n == self.n,
                    l == self.l,
                    count_set(presence_of(text)) >= 2,
                    l == self.char_table.spec_width(),
                    h >= 1,
                    2 * h <= pow2((l - 1) as nat),
                    groups == pow2(li as nat),
                    groups <= 64,
                    2 * groups <= pow2(l as nat),
                    n <= pow2(crate::rank_select::index_width(n as nat)),
                    n <= max_len(),
                    i <= groups,
                    hist_ok(self.hist@, codes, 2 * h, 0, i as int),
                    hist_ok(self.hist@, codes, h, i as int, 2 * groups),
                    built_levels(codes, l as nat, self.bv@, l - it, l as int),
                    built_levels(codes, l as nat, self.bv@, 0, 1),
                decreases groups - i,
            {
                let hist2i_plus1 = self.hist.get_int(2 * i + 1);
                let hist2i = self.hist.get_int(2 * i);
                proof {
                    self.char_table.lemma_wf();
                    lemma_cnt_refine(codes, h, i as nat, n as nat);
                    lemma_group_proper(text, l as nat, 2 * h, i as nat);
                }
                let ghost before = self.hist@;
                self.hist.set_int(i, hist2i + hist2i_plus1);
                proof {
                    assert forall|k: int| i + 1 <= k < 2 * groups implies #[trigger] self.hist@[k]
                        == cnt_eq(codes, h, k as nat, codes.len()) by {
                        assert(self.hist@[k] == before[k]);
                    }
                    assert forall|k: int| 0 <= k < i + 1 implies #[trigger] self.hist@[k] == cnt_eq(
                        codes,
                        2 * h,
                        k as nat,
                        codes.len(),
                    ) by {
                        if k < i {
                            assert(self.hist@[k] == before[k]);
                        }
                    }
                }
                i += 1;
            }

            // Update SPos
            proof {
                lemma_cnt_lt_zero(codes, 2 * h, n as nat);
            }
            self.spos.set_int(0, 0);
            let mut i: usize = 1;
            while i < groups
                invariant
                    self.wf(),
                    self.s@ == old(self).s@,
                    text == self.s@,
                    codes == self.codes(),
                    n == self.n,
                    l == self.l,
                    h >= 1,
                    groups == pow2(li as nat),
                    groups <= pow2(l as nat),
                    n <= pow2(crate::rank_select::index_width(n as nat)),
                    n <= max_len(),
                    1 <= i,
                    groups >= 1,
                    i <= groups || groups == 1,
                    hist_ok(self.hist@, codes, 2 * h, 0, groups as int),
                    spos_ok(self.spos@, codes, 2 * h, i as int, 0),
                    built_levels(codes, l as nat, self.bv@, l - it, l as int),
                    built_levels(codes, l as nat, self.bv@, 0, 1),
                decreases groups - i,
            {
                let spos_i_minus1 = self.spos.get_int(i - 1);
                let hist_i_minus1 = self.hist.get_int(i - 1);
                proof {
                    lemma_cnt_basics(codes, 2 * h, (i - 1) as nat, n as nat, n as nat);
                    lemma_sizes(n as nat);
                    lemma2_to64();
                }
                let ghost before = self.spos@;
                if spos_i_minus1 as u64 + (hist_i_minus1 as u64) < n as u64 {
                    // a start at the end of the level is never read
                    self.spos.set_int(i, spos_i_minus1 + hist_i_minus1);
                }
                proof {
                    assert forall|k: int|
                        0 <= k < i + 1 && cnt_lt(codes, 2 * h, k as nat, codes.len()) + cnt_eq(
                            codes,
                            2 * h,
                            k as nat,
                            0,
                        ) < codes.len() implies #[trigger] self.spos@[k] == cnt_lt(
                        codes,
                        2 * h,
                        k as nat,
                        codes.len(),
                    ) + cnt_eq(codes, 2 * h, k as nat, 0) by {
                        if k < i {
                            assert(self.spos@[k] == before[k]);
                        }
                    }
                }
                i += 1;
            }

            // Insert chars in into BitVec at level l_i
            let mut j: usize = 0;
            while j < n
                invariant
                    self.wf(),
                    self.s@ == old(self).s@,
                    text == self.s@,
                    codes == self.codes(),
                    n == self.n,
                    l == self.l,
                    1 <= li < l,
                    li == l - 1 - it,
                    h == pow2(it as nat),
                    h >= 1,
                    2 * h == pow2((l - li) as nat),
                    groups == pow2(li as nat),
                    groups <= pow2(l as nat),
                    n <= pow2(crate::rank_select::index_width(n as nat)),
                    n <= max_len(),
                    j <= n,
                    hist_ok(self.hist@, codes, 2 * h, 0, groups as int),
                    spos_ok(self.spos@, codes, 2 * h, groups as int, j as nat),
                    placed(self.bv@[li as int]@, codes, h, j as int),
                    built_levels(codes, l as nat, self.bv@, l - it, l as int),
                    built_levels(codes, l as nat, self.bv@, 0, 1),
                decreases n - j,
            {
                let c = self.char_at(j);
                let li_prefix = self.char_table.get_prefix(li, c);
                proof {
                    lemma_prefix_bound(codes[j as int], l as nat, li as nat);
                    lemma_level_pos_bound(codes, 2 * h, j as int);
                    lemma_cnt_basics(codes, 2 * h, li_prefix as nat, j as nat, n as nat);
                    lemma_sizes(n as nat);
                }
                let pos = self.spos.get_int(li_prefix);
                assert(pos == level_pos(codes, 2 * h, j as int));
                let ghost spos_before = self.spos@;
                if pos as usize + 1 < n {
                    // a position behind the level is never read
                    self.spos.set_int(li_prefix, pos + 1);  //increase the position by 1
                }
                let b = self.char_table.get_bit(li, c);
                let ghost levels_before = self.bv@;
                self.bv[li].set(pos as usize, b);
                proof {
                    assert forall|k: int|
                        0 <= k < groups && cnt_lt(codes, 2 * h, k as nat, codes.len()) + cnt_eq(
                            codes,
                            2 * h,
                            k as nat,
                            (j + 1) as nat,
                        ) < codes.len() implies #[trigger] self.spos@[k] == cnt_lt(
                        codes,
                        2 * h,
                        k as nat,
                        codes.len(),
                    ) + cnt_eq(codes, 2 * h, k as nat, (j + 1) as nat) by {
                        if k != li_prefix {
                            assert(self.spos@[k] == spos_before[k]);
                        }
                    }
                    let level_before = levels_before[li as int]@;
                    assert(self.bv@[li as int]@ == level_before.update(pos as int, b));
                    assert(h == pow2((l - 1 - li) as nat));
                    assert forall|m: int| 0 <= m < j + 1 implies self.bv@[li as int]@[#[trigger] level_pos(
                        codes,
                        2 * h,
                        m,
                    ) as int] == ((codes[m] / h) % 2 == 1) by {
                        lemma_level_pos_bound(codes, 2 * h, m);
                        if m < j {
                            lemma_level_pos_injective(codes, 2 * h, m, j as int);
                            assert(level_before[level_pos(codes, 2 * h, m) as int] == ((codes[m]
                                / h) % 2 == 1));
                        }
                    }
                    assert forall|lev: int| l - it <= lev < l implies level_ok(
                        codes,
                        pow2((l - 1 - lev) as nat),
                        (#[trigger] self.bv@[lev])@,
                    ) by {
                        assert(self.bv@[lev] == levels_before[lev]);
                    }
                    assert(self.bv@[0] == levels_before[0]);
                }
                j += 1;
            }
            proof {
                assert(level_ok(codes, h, self.bv@[li as int]@));
                assert forall|lev: int| l - (it + 1) <= lev < l implies level_ok(
                    codes,
                    pow2((l - 1 - lev) as nat),
                    (#[trigger] self.bv@[lev])@,
                ) by {
                    if lev == li {
                    }
                }
            }
            it += 1;
        }
        proof {
            assert forall|lev: int| 0 <= lev < l implies level_ok(
                codes,
                pow2((l - 1 - lev) as nat),
                (#[trigger] self.bv@[lev])@,
            ) by {
                if lev == 0 {
                }
            }
        }
        self
    }

    /// Seals the built levels into a wavelet tree.
    pub fn finish(&self) -> (wt: WT)
        requires
            self.is_built(),
        ensures
            wt.wf(),
            wt@ == self.text(),
    {
        // Complete the construction. Create rank supported bit vectors.
        let mut bv: Vec<RankSupport> = vec![];
        let ghost codes = self.codes();
        let mut k: usize = 0;
        while k < self.bv.len()
            invariant
                self.is_built(),
                codes == self.codes(),
                k <= self.bv@.len(),
                bv@.len() == k,
                levels_ok(codes, self.l as nat, bv@, k as int),
            decreases self.bv@.len() - k,
        {
            let level = self.bv[k].clone();
            let rs = RankSupport::new(level);
            let ghost before = bv@;
            bv.push(rs);
            proof {
                assert forall|m: int| 0 <= m < k + 1 implies (#[trigger] bv@[m]).wf() && level_ok(
                    codes,
                    pow2((self.l - 1 - m) as nat),
                    bv@[m]@,
                ) by {
                    if m < k {
                        assert(bv@[m] == before[m]);
                    } else {
                        assert(self.level_views()[k as int] == self.bv@[k as int]@);
                    }
                }
            }
            k += 1;
        }
        WT { n: self.n, bv: bv, char_table: self.char_table.clone(), text: Ghost(self.s@) }
    }
}

} // verus!
