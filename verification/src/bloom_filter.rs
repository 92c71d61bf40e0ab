//! Approximate membership: a classical Bloom filter and a blocked one, over
//! a bit vector, with seeded hashes of the keys' bytes.

use crate::bv::BitVec;
use rand::Rng;
use vstd::prelude::*;

verus! {

/// The SeaHash of `bytes` under the four seeds: what `seahash::hash_seeded`
/// returns. The hash reads its input byte by byte in a fixed order, so it
/// is the same on every machine.
pub uninterp spec fn seahash_seeded(bytes: Seq<u8>, k1: u64, k2: u64, k3: u64, k4: u64) -> u64;

/// `seahash::hash_seeded`: the hash of a buffer under four seeds. The
/// contract claims only that the result is a function of the bytes and the
/// seeds, and names that function; nothing is claimed of how the hashes
/// spread.
#[verifier::external_body]
fn hash_seeded(item: &[u8], k1: u64, k2: u64, k3: u64, k4: u64) -> (h: u64)
    ensures
        h == seahash_seeded(item@, k1, k2, k3, k4),
{
    seahash::hash_seeded(item, k1, k2, k3, k4)
}

/// `rand::thread_rng` and `Rng::gen`: a random 64-bit number from the
/// thread's generator. Nothing is claimed of the number. The generator
/// stops the program where the system gives it nothing to start from.
#[verifier::external_body]
fn random_seed() -> (seed: u64) {
    rand::thread_rng().gen::<u64>()
}

/// The `i`-th hash of `key` under `seeds`, as an index below `m`.
pub open spec fn hash_index(seeds: Seq<u64>, i: int, key: Seq<u8>, m: int) -> int {
    (seahash_seeded(key, seeds[4 * i], seeds[4 * i + 1], seeds[4 * i + 2], seeds[4 * i + 3])
        as usize) as int % m
}

/// A hash index is an index.
pub proof fn lemma_hash_index_bound(seeds: Seq<u64>, i: int, key: Seq<u8>, m: int)
    requires
        m >= 1,
    ensures
        0 <= hash_index(seeds, i, key, m) < m,
{
    let h = seahash_seeded(
        key,
        seeds[4 * i],
        seeds[4 * i + 1],
        seeds[4 * i + 2],
        seeds[4 * i + 3],
    );
    vstd::arithmetic::div_mod::lemma_mod_bound((h as usize) as int, m);
}

/// The `i`-th hash of `item` under `seeds`, as an index below `m`.
fn hash_i_mod(seeds: &Vec<u64>, i: usize, item: &[u8], m: usize) -> (h: usize)
    requires
        4 * i + 3 < seeds@.len() <= usize::MAX,
        m >= 1,
    ensures
        h == hash_index(seeds@, i as int, item@, m as int),
        h < m,
{
    let s_i = i * 4;
    let h = hash_seeded(item, seeds[s_i], seeds[s_i + 1], seeds[s_i + 2], seeds[s_i + 3]);
    (#[verifier::truncate] (h as usize)) % m
}

/// `n` random seeds.
fn random_seeds(n: usize) -> (seeds: Vec<u64>)
    ensures
        seeds@.len() == n,
{
    let mut seeds: Vec<u64> = Vec::new();
    let mut i: usize = 0;
    while i < n
        invariant
            i <= n,
            seeds@.len() == i,
        decreases n - i,
    {
        seeds.push(random_seed());
        i += 1;
    }
    seeds
}

/// Membership queries that may err on the side of presence only.
pub trait MQ {
    /// The filter can take keys.
    spec fn valid(&self) -> bool;

    /// The filter answers that `key` may be present.
    spec fn may_contain(&self, key: Seq<u8>) -> bool;

    /// Adds the key with the bytes `item`: from then on the filter answers
    /// that it may be present, as it does for every key that it answered
    /// so before.
    fn insert(&mut self, item: &[u8])
        requires
            old(self).valid(),
        ensures
            final(self).valid(),
            final(self).may_contain(item@),
            forall|key: Seq<u8>| old(self).may_contain(key) ==> final(self).may_contain(key),
    ;

    /// Whether the key with the bytes `item` may be present.
    fn query(&self, item: &[u8]) -> (isin: bool)
        requires
            self.valid(),
        ensures
            isin == self.may_contain(item@),
    ;
}

/// A Bloom filter: `k` hashes of a key each name one of `n` bits.
#[derive(Debug)]
pub struct BloomFilter {
    bv: BitVec,
    k: usize,
    n: usize,
    seeds: Vec<u64>,
}

impl View for BloomFilter {
    type V = Seq<bool>;

    /// The bits.
    closed spec fn view(&self) -> Seq<bool> {
        self.bv@
    }
}

impl BloomFilter {
    /// The seeds of the hashes, four for each.
    pub closed spec fn seeds_view(&self) -> Seq<u64> {
        self.seeds@
    }

    /// The number of hashes.
    pub closed spec fn hashes(&self) -> nat {
        self.k as nat
    }

    /// There are as many bits as the length says, and four seeds for each hash.
    pub closed spec fn wf(&self) -> bool {
        &&& self.bv.wf()
        &&& self.bv@.len() == self.n
        &&& self.seeds@.len() == 4 * self.k <= usize::MAX
    }

    /// The bit that the `i`-th hash of `key` names.
    pub open spec fn position(&self, i: int, key: Seq<u8>) -> int {
        hash_index(self.seeds_view(), i, key, self@.len() as int)
    }

    /// An empty filter of `n` bits with `k` hashes under the given seeds.
    pub fn with_seeds(k: usize, n: usize, seeds: Vec<u64>) -> (bf: Self)
        requires
            seeds@.len() == 4 * k,
        ensures
            bf.wf(),
            bf.hashes() == k,
            bf@.len() == n,
            bf.seeds_view() == seeds@,
            forall|i: int| 0 <= i < n ==> !bf@[i],
    {
        let n_seeds = seeds.len();
        Self { bv: BitVec::new(n), k: n_seeds / 4, n: n, seeds: seeds }
    }

    /// The filter with the bits `bv`, of which `n` are said to be there,
    /// and `k` hashes under `seeds`, if there are that many bits and four
    /// seeds for each hash.
    pub fn from_parts(bv: BitVec, k: usize, n: usize, seeds: Vec<u64>) -> (res: Option<Self>)
        requires
            bv.wf(),
        ensures
            res is Some <==> bv@.len() == n && seeds@.len() == 4 * k,
            res matches Some(bf) ==> bf.wf() && bf@ == bv@ && bf.hashes() == k && bf.seeds_view()
                == seeds@,
    {
        if bv.len() != n || seeds.len() / 4 != k || seeds.len() % 4 != 0 {
            return None;
        }
        Some(Self { bv: bv, k: k, n: n, seeds: seeds })
    }

    /// An empty filter of `n` bits with `k` hashes under random seeds.
    pub fn new(k: usize, n: usize) -> (bf: Self)
        requires
            4 * k <= usize::MAX,
        ensures
            bf.wf(),
            bf.hashes() == k,
            bf@.len() == n,
            bf.seeds_view().len() == 4 * k,
            forall|i: int| 0 <= i < n ==> !bf@[i],
    {
        let n_seeds = k * 4;
        let seeds = random_seeds(n_seeds);
        Self::with_seeds(k, n, seeds)
    }

    /// The number of hashes.
    pub fn n_hashes(&self) -> (k: usize)
        ensures
            k == self.hashes(),
    {
        self.k
    }

    /// The number of bits.
    pub fn len(&self) -> (n: usize)
        requires
            self.wf(),
        ensures
            n == self@.len(),
    {
        self.n
    }

    /// The bits.
    pub fn bits(&self) -> (bv: &BitVec)
        requires
            self.wf(),
        ensures
            bv.wf(),
            bv@ == self@,
    {
        &self.bv
    }

    /// The seeds of the hashes.
    pub fn seeds(&self) -> (seeds: &Vec<u64>)
        ensures
            seeds@ == self.seeds_view(),
    {
        &self.seeds
    }

    /// The bit that the `i`-th hash of `item` names.
    fn hash_i(&self, i: usize, item: &[u8]) -> (h: usize)
        requires
            self.wf(),
            i < self.k,
            self.n >= 1,
        ensures
            h == self.position(i as int, item@),
            h < self.n,
    {
        hash_i_mod(&self.seeds, i, item, self.len())
    }
}

impl MQ for BloomFilter {
    /// The filter is well-formed and, where it has a hash, has a bit.
    open spec fn valid(&self) -> bool {
        self.wf() && (self.hashes() == 0 || self@.len() >= 1)
    }

    /// Every bit that a hash of `key` names is set.
    open spec fn may_contain(&self, key: Seq<u8>) -> bool {
        forall|i: int| 0 <= i < self.hashes() ==> self@[#[trigger] self.position(i, key)]
    }

    /// Sets the `k` bits that the hashes of `item` name.
    fn insert(&mut self, item: &[u8])
        ensures
            final(self).hashes() == old(self).hashes(),
            final(self).seeds_view() == old(self).seeds_view(),
            final(self)@.len() == old(self)@.len(),
            forall|j: int|
                0 <= j < old(self)@.len() ==> final(self)@[j] == (old(self)@[j] || exists|i: int|
                    0 <= i < old(self).hashes() && j == #[trigger] old(self).position(i, item@)),
    {
        let k = self.n_hashes();
        let mut i: usize = 0;
        while i < k
            invariant
                self.valid(),
                k == self.k == old(self).k,
                self.n == old(self).n,
                self@.len() == old(self)@.len() == self.n,
                self.seeds@ == old(self).seeds@,
                i <= k,
                forall|j: int|
                    0 <= j < self.n ==> self@[j] == (old(self)@[j] || exists|m: int|
                        0 <= m < i && j == #[trigger] old(self).position(m, item@)),
            decreases k - i,
        {
            let h = self.hash_i(i, item);
            let ghost before = self@;
            self.bv.set(h, true);
            proof {
                assert(h == old(self).position(i as int, item@));
                assert forall|j: int| 0 <= j < self.n implies self@[j] == (old(self)@[j]
                    || exists|m: int|
                    0 <= m < i + 1 && j == #[trigger] old(self).position(m, item@)) by {
                    if j == h {
                    } else if before[j] && !old(self)@[j] {
                        let m = choose|m: int|
                            0 <= m < i && j == #[trigger] old(self).position(m, item@);
                        assert(0 <= m < i + 1);
                    }
                }
            }
            i += 1;
        }
        proof {
            assert forall|m: int| 0 <= m < self.hashes() implies self@[#[trigger] self.position(
                m,
                item@,
            )] by {
                lemma_hash_index_bound(self.seeds@, m, item@, self.n as int);
                assert(self.position(m, item@) == old(self).position(m, item@));
            }
            assert forall|key: Seq<u8>| old(self).may_contain(key) implies self.may_contain(
                key,
            ) by {
                assert forall|m: int| 0 <= m < self.hashes() implies self@[#[trigger] self.position(
                    m,
                    key,
                )] by {
                    lemma_hash_index_bound(self.seeds@, m, key, self.n as int);
                    assert(old(self)@[old(self).position(m, key)]);
                }
            }
        }
    }

    /// Whether the `k` bits that the hashes of `item` name are all set.
    fn query(&self, item: &[u8]) -> (isin: bool) {
        let k = self.n_hashes();
        let mut i: usize = 0;
        while i < k
            invariant
                self.valid(),
                k == self.k,
                i <= k,
                forall|m: int| 0 <= m < i ==> self@[#[trigger] self.position(m, item@)],
            decreases k - i,
        {
            let isin = self.bv.get(self.hash_i(i, item));
            if !isin {
                return isin;
            }
            i += 1;
        }
        true
    }
}

/// A blocked Bloom filter: the first hash of a key names a block, and the
/// other hashes each name a bit of that block.
#[derive(Debug)]
pub struct BlockedBloomFilter {
    bv: BitVec,
    k: usize,
    seeds: Vec<u64>,
    nb: usize,
    b_size: usize,
}

impl View for BlockedBloomFilter {
    type V = Seq<bool>;

    /// The bits, block after block.
    closed spec fn view(&self) -> Seq<bool> {
        self.bv@
    }
}

impl BlockedBloomFilter {
    /// The seeds of the hashes, four for each.
    pub closed spec fn seeds_view(&self) -> Seq<u64> {
        self.seeds@
    }

    /// The number of hashes, the one that names the block included.
    pub closed spec fn hashes(&self) -> nat {
        self.k as nat
    }

    /// The number of blocks.
    pub closed spec fn blocks(&self) -> nat {
        self.nb as nat
    }

    /// The number of bits of a block.
    pub closed spec fn block_bits(&self) -> nat {
        self.b_size as nat
    }

    /// The blocks fill the bits, and there are four seeds for each hash.
    pub closed spec fn wf(&self) -> bool {
        &&& self.bv.wf()
        &&& self.bv@.len() == self.nb * self.b_size
        &&& self.seeds@.len() == 4 * self.k <= usize::MAX
    }

    /// The first bit of the block of `key`.
    pub open spec fn block_start(&self, key: Seq<u8>) -> int {
        hash_index(self.seeds_view(), 0, key, self.blocks() as int) * self.block_bits()
    }

    /// The bit that the `i`-th hash of `key` names.
    pub open spec fn position(&self, i: int, key: Seq<u8>) -> int {
        self.block_start(key) + hash_index(self.seeds_view(), i, key, self.block_bits() as int)
    }

    /// An empty filter of `n_blocks` blocks of `block_size` bytes, with `k`
    /// hashes under the given seeds.
    pub fn with_seeds(k: usize, n_blocks: usize, block_size: usize, seeds: Vec<u64>) -> (bf: Self)
        requires
            seeds@.len() == 4 * k,
            block_size * 8 <= usize::MAX,
            n_blocks * block_size * 8 <= usize::MAX,
        ensures
            bf.wf(),
            bf.hashes() == k,
            bf.blocks() == n_blocks,
            bf.block_bits() == block_size * 8,
            bf@.len() == n_blocks * block_size * 8,
            bf.seeds_view() == seeds@,
            forall|i: int| 0 <= i < bf@.len() ==> !bf@[i],
    {
        // block_size in bytes
        let n_seeds = seeds.len();
        proof {
            assert(n_blocks * block_size <= n_blocks * block_size * 8 && n_blocks * (block_size
                * 8) == n_blocks * block_size * 8) by (nonlinear_arith)
                requires
                    n_blocks >= 0,
                    block_size >= 0,
            ;
        }
        Self {
            bv: BitVec::new(n_blocks * block_size * 8),
            k: n_seeds / 4,
            nb: n_blocks,
            seeds: seeds,
            b_size: block_size * 8,
        }
    }

    /// The filter with the bits `bv` in `nb` blocks of `b_size` bits, and
    /// `k` hashes under `seeds`, if the blocks fill the bits and there are
    /// four seeds for each hash.
    pub fn from_parts(bv: BitVec, k: usize, seeds: Vec<u64>, nb: usize, b_size: usize) -> (res:
        Option<Self>)
        requires
            bv.wf(),
        ensures
            res is Some <==> bv@.len() == nb * b_size && seeds@.len() == 4 * k,
            res matches Some(bf) ==> bf.wf() && bf@ == bv@ && bf.hashes() == k && bf.blocks() == nb
                && bf.block_bits() == b_size && bf.seeds_view() == seeds@,
    {
        if seeds.len() / 4 != k || seeds.len() % 4 != 0 {
            return None;
        }
        match nb.checked_mul(b_size) {
            None => {
                proof {
                    bv.lemma_len();
                }
                None
            },
            Some(bits) => {
                if bv.len() != bits {
                    return None;
                }
                Some(Self { bv: bv, k: k, seeds: seeds, nb: nb, b_size: b_size })
            },
        }
    }

    /// The bits.
    pub fn bits(&self) -> (bv: &BitVec)
        requires
            self.wf(),
        ensures
            bv.wf(),
            bv@ == self@,
    {
        &self.bv
    }

    /// An empty filter of `n_blocks` blocks of `block_size` bytes, with `k`
    /// hashes under random seeds.
    pub fn new(k: usize, n_blocks: usize, block_size: usize) -> (bf: Self)
        requires
            4 * k <= usize::MAX,
            block_size * 8 <= usize::MAX,
            n_blocks * block_size * 8 <= usize::MAX,
        ensures
            bf.wf(),
            bf.hashes() == k,
            bf.blocks() == n_blocks,
            bf.block_bits() == block_size * 8,
            bf@.len() == n_blocks * block_size * 8,
            bf.seeds_view().len() == 4 * k,
            forall|i: int| 0 <= i < bf@.len() ==> !bf@[i],
    {
        let n_seeds = k * 4;
        let seeds = random_seeds(n_seeds);
        Self::with_seeds(k, n_blocks, block_size, seeds)
    }

    /// The number of hashes.
    pub fn n_hashes(&self) -> (k: usize)
        ensures
            k == self.hashes(),
    {
        self.k
    }

    /// The number of bits.
    pub fn len(&self) -> (n: usize)
        requires
            self.wf(),
        ensures
            n == self@.len(),
    {
        self.bv.len()
    }

    /// The number of bits of a block.
    pub fn block_size(&self) -> (bits: usize)
        ensures
            bits == self.block_bits(),
    {
        self.b_size
    }

    /// The number of blocks.
    pub fn n_blocks(&self) -> (nb: usize)
        ensures
            nb == self.blocks(),
    {
        self.nb
    }

    /// The seeds of the hashes.
    pub fn seeds(&self) -> (seeds: &Vec<u64>)
        ensures
            seeds@ == self.seeds_view(),
    {
        &self.seeds
    }

    /// The first bit of the block of `item`.
    fn hash_block(&self, item: &[u8]) -> (h: usize)
        requires
            self.valid(),
        ensures
            h == self.block_start(item@),
            h + self.b_size <= self@.len() <= usize::MAX,
    {
        let block = hash_i_mod(&self.seeds, 0, item, self.n_blocks());
        proof {
            assert(block * self.b_size + self.b_size <= self.nb * self.b_size) by (nonlinear_arith)
                requires
                    0 <= block < self.nb,
                    self.b_size >= 0,
            ;
            self.bv.lemma_len();
        }
        block * self.block_size()
    }

    /// The bit of a block that the `i`-th hash of `item` names.
    fn hash_in_block(&self, i: usize, item: &[u8]) -> (h: usize)
        requires
            self.valid(),
            i < self.k,
        ensures
            h == hash_index(self.seeds_view(), i as int, item@, self.block_bits() as int),
            h < self.b_size,
    {
        hash_i_mod(&self.seeds, i, item, self.block_size())
    }
}

impl MQ for BlockedBloomFilter {
    /// The filter is well-formed and has a hash, a block and a bit in each block.
    open spec fn valid(&self) -> bool {
        self.wf() && self.hashes() >= 1 && self.blocks() >= 1 && self.block_bits() >= 1
    }

    /// Every bit that a hash of `key` but the first names is set.
    open spec fn may_contain(&self, key: Seq<u8>) -> bool {
        forall|i: int| 1 <= i < self.hashes() ==> self@[#[trigger] self.position(i, key)]
    }

    /// Sets, in the block of `item`, the bits that its hashes but the first name.
    fn insert(&mut self, item: &[u8])
        ensures
            final(self).hashes() == old(self).hashes(),
            final(self).blocks() == old(self).blocks(),
            final(self).block_bits() == old(self).block_bits(),
            final(self).seeds_view() == old(self).seeds_view(),
            final(self)@.len() == old(self)@.len(),
            forall|j: int|
                0 <= j < old(self)@.len() ==> final(self)@[j] == (old(self)@[j] || exists|i: int|
                    1 <= i < old(self).hashes() && j == #[trigger] old(self).position(i, item@)),
    {
        let hx_block = self.hash_block(item);
        let k = self.n_hashes();
        let mut i: usize = 1;
        while i < k
            invariant
                self.valid(),
                k == self.k == old(self).k,
                self.nb == old(self).nb,
                self.b_size == old(self).b_size,
                self@.len() == old(self)@.len(),
                self.seeds@ == old(self).seeds@,
                hx_block == old(self).block_start(item@),
                hx_block + self.b_size <= self@.len() <= usize::MAX,
                1 <= i <= k,
                forall|j: int|
                    0 <= j < self@.len() ==> self@[j] == (old(self)@[j] || exists|m: int|
                        1 <= m < i && j == #[trigger] old(self).position(m, item@)),
            decreases k - i,
        {
            let hx_in_block = self.hash_in_block(i, item);
            let ghost before = self@;
            self.bv.set(hx_block + hx_in_block, true);
            proof {
                let h = hx_block + hx_in_block;
                assert(h == old(self).position(i as int, item@));
                assert forall|j: int| 0 <= j < self@.len() implies self@[j] == (old(self)@[j]
                    || exists|m: int|
                    1 <= m < i + 1 && j == #[trigger] old(self).position(m, item@)) by {
                    if j == h {
                    } else if before[j] && !old(self)@[j] {
                        let m = choose|m: int|
                            1 <= m < i && j == #[trigger] old(self).position(m, item@);
                        assert(1 <= m < i + 1);
                    }
                }
            }
            i += 1;
        }
        proof {
            assert forall|m: int| 1 <= m < self.hashes() implies self@[#[trigger] self.position(
                m,
                item@,
            )] by {
                old(self).lemma_position_bound(m, item@);
                assert(self.position(m, item@) == old(self).position(m, item@));
            }
            assert forall|key: Seq<u8>| old(self).may_contain(key) implies self.may_contain(
                key,
            ) by {
                assert forall|m: int| 1 <= m < self.hashes() implies self@[#[trigger] self.position(
                    m,
                    key,
                )] by {
                    old(self).lemma_position_bound(m, key);
                    assert(old(self)@[old(self).position(m, key)]);
                }
            }
        }
    }

    /// Whether, in the block of `item`, the bits that its hashes but the
    /// first name are all set.
    fn query(&self, item: &[u8]) -> (isin: bool) {
        // First hash is used for block
        let hx_block = self.hash_block(item);

        // next n-1 hashes are used
        let k = self.n_hashes();
        let mut i: usize = 1;
        while i < k
            invariant
                self.valid(),
                k == self.k,
                1 <= i <= k,
                hx_block == self.block_start(item@),
                hx_block + self.b_size <= self@.len() <= usize::MAX,
                forall|m: int| 1 <= m < i ==> self@[#[trigger] self.position(m, item@)],
            decreases k - i,
        {
            let hx_in_block = self.hash_in_block(i, item);
            let isin = self.bv.get(hx_block + hx_in_block);
            if !isin {
                assert(!self@[self.position(i as int, item@)]);
                return isin;
            }
            i += 1;
        }
        true
    }
}

impl BlockedBloomFilter {
    /// A position that a hash names is a position of the filter.
    pub proof fn lemma_position_bound(&self, i: int, key: Seq<u8>)
        requires
            self.valid(),
        ensures
            0 <= self.position(i, key) < self@.len(),
    {
        lemma_hash_index_bound(self.seeds@, 0, key, self.nb as int);
        lemma_hash_index_bound(self.seeds@, i, key, self.b_size as int);
        let block = hash_index(self.seeds@, 0, key, self.nb as int);
        assert(block * self.b_size + self.b_size <= self.nb * self.b_size && block * self.b_size
            >= 0) by (nonlinear_arith)
            requires
                0 <= block < self.nb,
                self.b_size >= 0,
        ;
    }
}

impl Clone for BloomFilter {
    /// A copy with the same bits, hashes and seeds.
    fn clone(&self) -> (bf: Self)
        ensures
            bf@ == self@,
            bf.hashes() == self.hashes(),
            bf.seeds_view() == self.seeds_view(),
            self.wf() ==> bf.wf(),
    {
        let seeds = self.seeds.clone();
        assert(seeds@ =~= self.seeds@);
        BloomFilter { bv: self.bv.clone(), k: self.k, n: self.n, seeds: seeds }
    }
}

impl Clone for BlockedBloomFilter {
    /// A copy with the same bits, blocks, hashes and seeds.
    fn clone(&self) -> (bf: Self)
        ensures
            bf@ == self@,
            bf.hashes() == self.hashes(),
            bf.blocks() == self.blocks(),
            bf.block_bits() == self.block_bits(),
            bf.seeds_view() == self.seeds_view(),
            self.wf() ==> bf.wf(),
    {
        let seeds = self.seeds.clone();
        assert(seeds@ =~= self.seeds@);
        BlockedBloomFilter {
            bv: self.bv.clone(),
            k: self.k,
            seeds: seeds,
            nb: self.nb,
            b_size: self.b_size,
        }
    }
}

} // verus!
