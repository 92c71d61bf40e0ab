use succinct::bloom_filter::{BlockedBloomFilter, BloomFilter, MQ};

#[test]
fn bloom_filter_new() {
    let k = 5;
    let n = 15;
    let bf = BloomFilter::new(k, n);
    assert_eq!(bf.len(), n);
    assert_eq!(bf.bits().len(), n);
    assert_eq!(bf.n_hashes(), k);
    assert_eq!(bf.seeds().len(), k * 4);
}

#[test]
fn insert_query_bf() {
    let k = 10;
    let n = 100;
    let mut bf = BloomFilter::new(k, n);

    let s = b"hello";
    bf.insert(s);
    assert!(bf.query(s));

    let s = 73;
    assert!(!bf.query(&i32::to_ne_bytes(s)));
}

#[test]
fn insert_query_bbf() {
    let k = 8;
    let b_size = 64;
    let nb = 100;
    let mut bf = BlockedBloomFilter::new(k, nb, b_size);

    let s = b"hello";
    bf.insert(s);
    assert!(bf.query(s));

    let s = 73;
    assert!(!bf.query(&i32::to_ne_bytes(s)));
}

fn seeds(n: usize) -> Vec<u64> {
    (0..n as u64).map(|i| i.wrapping_mul(0x9e37_79b9_7f4a_7c15).wrapping_add(12345)).collect()
}

#[test]
fn no_false_negatives() {
    let mut bf = BloomFilter::new(2, 15);
    for i in 0..10u32 {
        bf.insert(&i.to_le_bytes());
    }
    for i in 0..10u32 {
        assert!(bf.query(&i.to_le_bytes()));
    }
    let mut bbf = BlockedBloomFilter::new(4, 3, 8);
    for i in 0..50u32 {
        bbf.insert(&i.to_le_bytes());
        for j in 0..=i {
            assert!(bbf.query(&j.to_le_bytes()));
        }
    }
}

#[test]
fn bits_follow_the_hashes() {
    let k = 3;
    let n = 1000;
    let sd = seeds(4 * k);
    let mut bf = BloomFilter::with_seeds(k, n, sd.clone());
    assert_eq!(bf.seeds(), &sd);
    assert!(bf.bits().to_vec().iter().all(|b| !b));
    assert!(!bf.query(b"key"));
    bf.insert(b"key");
    let mut expected = vec![false; n];
    for i in 0..k {
        let h = seahash::hash_seeded(b"key", sd[4 * i], sd[4 * i + 1], sd[4 * i + 2], sd[4 * i + 3]);
        expected[h as usize % n] = true;
    }
    assert_eq!(bf.bits().to_vec(), expected);
    assert!(bf.query(b"key"));
    let set = expected.iter().filter(|b| **b).count();
    assert!(1 <= set && set <= k);
    // the same key again changes nothing
    bf.insert(b"key");
    assert_eq!(bf.bits().to_vec(), expected);
}

#[test]
fn different_keys_and_seeds_differ() {
    let sd = seeds(4);
    let mut a = BloomFilter::with_seeds(1, 1 << 20, sd.clone());
    a.insert(b"first");
    let mut b = BloomFilter::with_seeds(1, 1 << 20, sd);
    b.insert(b"second");
    assert!(a.bits().to_vec() != b.bits().to_vec());
    let mut c = BloomFilter::with_seeds(1, 1 << 20, vec![1, 2, 3, 4]);
    c.insert(b"first");
    assert!(a.bits().to_vec() != c.bits().to_vec());
}

#[test]
fn blocked_bits_stay_in_one_block() {
    let k = 5;
    let nb = 16;
    let block_bytes = 8;
    let sd = seeds(4 * k);
    let mut bf = BlockedBloomFilter::with_seeds(k, nb, block_bytes, sd.clone());
    assert_eq!(bf.n_hashes(), k);
    assert_eq!(bf.n_blocks(), nb);
    assert_eq!(bf.block_size(), block_bytes * 8);
    assert_eq!(bf.len(), nb * block_bytes * 8);
    assert_eq!(bf.seeds(), &sd);
    assert!(!bf.query(b"key"));
    bf.insert(b"key");
    assert!(bf.query(b"key"));
    let h0 = seahash::hash_seeded(b"key", sd[0], sd[1], sd[2], sd[3]);
    let block = h0 as usize % nb;
    let mut expected = vec![false; nb * 64];
    for i in 1..k {
        let h = seahash::hash_seeded(b"key", sd[4 * i], sd[4 * i + 1], sd[4 * i + 2], sd[4 * i + 3]);
        expected[block * 64 + h as usize % 64] = true;
    }
    // a second filter under the same seeds takes the same key to the same bits
    let mut other = BlockedBloomFilter::with_seeds(k, nb, block_bytes, sd);
    assert!(!other.query(b"key"));
    other.insert(b"key");
    assert!(other.query(b"key"));
    let set = expected.iter().filter(|b| **b).count();
    assert!(1 <= set && set <= k - 1);
}

#[test]
fn empty_filters() {
    let mut none = BloomFilter::new(0, 0);
    assert_eq!(none.len(), 0);
    assert_eq!(none.n_hashes(), 0);
    assert!(none.query(b"anything"));
    none.insert(b"anything");
    assert!(none.query(b"anything"));
    let one = BlockedBloomFilter::new(1, 1, 1);
    assert_eq!(one.len(), 8);
    assert!(one.query(b"anything"));
}

#[test]
fn parts_of_a_filter() {
    let sd = seeds(12);
    let mut bf = BloomFilter::with_seeds(3, 200, sd.clone());
    bf.insert(b"one");
    bf.insert(b"two");
    let back = BloomFilter::from_parts(bf.bits().clone(), 3, 200, sd.clone()).unwrap();
    assert!(back.query(b"one"));
    assert!(back.query(b"two"));
    assert_eq!(back.query(b"three"), bf.query(b"three"));
    assert_eq!(back.bits().to_vec(), bf.bits().to_vec());
    assert!(BloomFilter::from_parts(bf.bits().clone(), 3, 199, sd.clone()).is_none());
    assert!(BloomFilter::from_parts(bf.bits().clone(), 2, 200, sd.clone()).is_none());
    assert!(BloomFilter::from_parts(bf.bits().clone(), 3, 200, sd[..11].to_vec()).is_none());

    let mut bbf = BlockedBloomFilter::with_seeds(3, 4, 8, sd.clone());
    bbf.insert(b"one");
    let back = BlockedBloomFilter::from_parts(bbf.bits().clone(), 3, sd.clone(), 4, 64).unwrap();
    assert!(back.query(b"one"));
    assert_eq!(back.n_blocks(), 4);
    assert_eq!(back.block_size(), 64);
    assert!(BlockedBloomFilter::from_parts(bbf.bits().clone(), 3, sd.clone(), 4, 63).is_none());
    assert!(BlockedBloomFilter::from_parts(bbf.bits().clone(), 3, sd.clone(), 8, 32).is_some());
    assert!(BlockedBloomFilter::from_parts(bbf.bits().clone(), 4, sd.clone(), 4, 64).is_none());
    assert!(BlockedBloomFilter::from_parts(bbf.bits().clone(), 3, sd, usize::MAX, 2).is_none());
}

#[test]
fn clones_of_filters() {
    let mut bf = BloomFilter::with_seeds(3, 200, seeds(12));
    bf.insert(b"one");
    let before = bf.bits().to_vec();
    let copy = bf.clone();
    bf.insert(b"two");
    assert!(copy.query(b"one"));
    assert_eq!(copy.seeds(), bf.seeds());
    assert_eq!(copy.n_hashes(), 3);
    assert_eq!(copy.bits().to_vec(), before);
    let mut bbf = BlockedBloomFilter::with_seeds(3, 4, 8, seeds(12));
    bbf.insert(b"one");
    let copy = bbf.clone();
    assert!(copy.query(b"one"));
    assert_eq!(copy.n_blocks(), 4);
    assert_eq!(copy.bits().to_vec(), bbf.bits().to_vec());
}
