use succinct::bv::{BitVec, IntVec};
use succinct::math::clog;
use succinct::rank_select::RankSupport;

#[test]
fn test_select1() {
    let bv = BitVec::from_bytes(&vec![0b01001010]);
    let rs = RankSupport::new(bv);
    assert_eq!(rs.select1(1), Some(1));
}

#[test]
fn test_select0() {
    let bv = BitVec::from_bytes(&vec![0b01001010]);
    let rs = RankSupport::new(bv);
    assert_eq!(rs.select0(1), Some(0));
    assert_eq!(rs.select0(2), Some(2));
}

#[test]
fn test_select_easy() {
    let bv = BitVec::from_bytes(&vec![!0u8, !0u8]);
    let rs = RankSupport::new(bv);

    for i in 0..rs.len() {
        assert_eq!(rs.select1(i + 1), Some(i));
        assert_eq!(rs.select0(i + 1), None);
    }

    let bv = BitVec::from_bytes(&vec![0u8, 0u8]);
    let rs = RankSupport::new(bv);

    for i in 0..rs.len() {
        assert_eq!(rs.select0(i + 1), Some(i));
        assert_eq!(rs.select1(i + 1), None);
    }
}

#[test]
fn rank_easy() {
    let bv = BitVec::from_bytes(&vec![0b10010111, 0b01001010]);
    let rs = RankSupport::new(bv);
    let rank = [1, 1, 1, 2, 2, 3, 4, 5, 5, 6, 6, 6, 7, 7, 8, 8];
    for i in 0..rs.len() {
        assert_eq!(rs.rank1(i), rank[i]);
    }
}

#[test]
fn rank_one() {
    let reps = 100;
    let bytes = &vec![!0u8; reps];
    let pad = 7_usize;
    let bv = BitVec::from_padded_bytes(bytes, pad);
    let n_bits = reps * 8 - pad;
    assert_eq!(bv.len(), n_bits);
    let rs = RankSupport::new(bv);
    for i in 0..n_bits {
        assert_eq!(rs.rank1(i), i + 1);
    }
}

#[test]
fn rank_evens() {
    let reps = 2;
    let bytes = &vec![!0b10101010; reps];
    let pad = 7_usize;
    let bv = BitVec::from_padded_bytes(bytes, pad);
    let n_bits = reps * 8 - pad;
    assert_eq!(bv.len(), n_bits);
    let rs = RankSupport::new(bv);
    for i in 0..n_bits {
        assert_eq!(rs.rank1(i), (i + 1) / 2);
    }
}

#[test]
fn rank_degenerate() {
    let bytes = vec![0b11000000];
    let bv = BitVec::from_padded_bytes(&bytes, 7);
    let rs = RankSupport::new(bv);
    assert_eq!(rs.rank1(0), 1);

    let bv = BitVec::from_padded_bytes(&bytes, 6);
    let rs = RankSupport::new(bv);
    assert_eq!(rs.rank1(0), 1);
    assert_eq!(rs.rank1(1), 2);
}

#[test]
fn rank_odds() {
    let reps = 2;
    let bytes = &vec![!0b01010101; reps];
    let pad = 7_usize;
    let bv = BitVec::from_padded_bytes(bytes, pad);
    let n_bits = reps * 8 - pad;
    assert_eq!(bv.len(), n_bits);
    let rs = RankSupport::new(bv);
    for i in 0..n_bits {
        assert_eq!(rs.rank1(i), (i / 2) + 1);
    }
}

fn sample(n: usize, seed: u64) -> Vec<bool> {
    let mut x = seed;
    let mut v = Vec::with_capacity(n);
    for _ in 0..n {
        x = x.wrapping_mul(6364136223846793005).wrapping_add(1442695040888963407);
        v.push((x >> 33) % 3 == 0);
    }
    v
}

fn index_of(bits: &[bool]) -> RankSupport {
    let mut bv = BitVec::new(bits.len());
    for (i, b) in bits.iter().enumerate() {
        bv.set(i, *b);
    }
    RankSupport::new(bv)
}

#[test]
fn select_on_the_sample_vector() {
    let bv = BitVec::from_bytes(&vec![0b10010111, 0b01001010]);
    let rs = RankSupport::new(bv);
    assert_eq!(rs.select1(3), Some(5));
    assert_eq!(rs.select1(8), Some(14));
    assert_eq!(rs.select0(1), Some(1));
    assert_eq!(rs.select0(4), Some(8));
    assert_eq!(rs.select1(0), None);
    assert_eq!(rs.select0(0), None);
    assert_eq!(rs.select1(9), None);
    assert_eq!(rs.select0(9), None);
    assert_eq!(rs.select(true, 3), Some(5));
    assert_eq!(rs.select(false, 4), Some(8));
    assert_eq!(rs.select1(usize::MAX), None);
}

#[test]
fn rank_counts_on_many_lengths() {
    for n in [1usize, 2, 3, 5, 8, 16, 17, 31, 32, 33, 63, 64, 65, 100, 257, 1000, 5000] {
        let bits = sample(n, n as u64);
        let rs = index_of(&bits);
        assert_eq!(rs.len(), n);
        let mut ones = 0usize;
        for i in 0..n {
            if bits[i] {
                ones += 1;
            }
            assert_eq!(rs.get(i), bits[i]);
            assert_eq!(rs.rank1(i), ones);
            assert_eq!(rs.rank0(i), i + 1 - ones);
            assert_eq!(rs.rank(true, i), ones);
            assert_eq!(rs.rank(false, i), i + 1 - ones);
            assert_eq!(rs.rank1(i) + rs.rank0(i), i + 1);
            if i > 0 {
                assert!(rs.rank1(i - 1) <= rs.rank1(i));
                assert!(rs.rank1(i) <= rs.rank1(i - 1) + 1);
            }
        }
    }
}

#[test]
fn select_inverts_rank() {
    for n in [1usize, 7, 32, 100, 513, 2000] {
        let bits = sample(n, 7 * n as u64 + 1);
        let rs = index_of(&bits);
        let ones = bits.iter().filter(|b| **b).count();
        for p in 0..n {
            if bits[p] {
                assert_eq!(rs.select1(rs.rank1(p)), Some(p));
            } else {
                assert_eq!(rs.select0(rs.rank0(p)), Some(p));
            }
        }
        for r in 1..=ones {
            let p = rs.select1(r).unwrap();
            assert!(bits[p]);
            assert_eq!(rs.rank1(p), r);
        }
        assert_eq!(rs.select1(ones + 1), None);
        assert_eq!(rs.select0(n - ones + 1), None);
        assert_eq!(rs.select1(0), None);
    }
}

#[test]
fn relative_rank_and_select() {
    let n = 300usize;
    let bits = sample(n, 99);
    let rs = index_of(&bits);
    for l in [0usize, 1, 5, 31, 32, 150, 299] {
        for b in [true, false] {
            let mut count = 0usize;
            for i in 0..(n - l) {
                if bits[l + i] == b {
                    count += 1;
                    assert_eq!(rs.rel_select(b, l, count), Some(i));
                }
                assert_eq!(rs.rel_rank(b, l, i), count);
            }
            assert_eq!(rs.rel_select(b, l, count + 1), None);
            assert_eq!(rs.rel_select(b, l, 0), None);
            assert_eq!(rs.rel_select(b, l, usize::MAX), None);
        }
    }
    assert_eq!(rs.rel_select(true, n, 1), None);
}

#[test]
fn clone_answers_alike() {
    let bits = sample(200, 5);
    let rs = index_of(&bits);
    let copy = rs.clone();
    for i in 0..200 {
        assert_eq!(rs.rank1(i), copy.rank1(i));
    }
}

#[test]
fn sizing_rule() {
    for n in [1usize, 2, 3, 4, 5, 16, 17, 100, 128, 1000, 65536, 1 << 20] {
        let rs = RankSupport::new(BitVec::new(n));
        let l = clog(n);
        let b = std::cmp::max(1, (l + 1) / 2);
        let s0 = std::cmp::max(1, (l * l + 1) / 2);
        let s = (s0 / b) * b;
        assert_eq!(rs.block_bits(), b);
        assert_eq!(rs.super_block_bits(), s);
        assert_eq!(rs.super_block_bits() % rs.block_bits(), 0);
        assert_eq!(rs.super_table().len(), (n + s - 1) / s);
        assert_eq!(rs.block_table().len(), (n + b - 1) / b);
        assert_eq!(rs.super_table().w_size(), std::cmp::max(1, l));
        assert_eq!(rs.block_table().w_size(), std::cmp::max(1, clog(s)));
    }
    let rs = RankSupport::new(BitVec::new(128));
    assert_eq!(rs.block_bits(), 4);
    assert_eq!(rs.super_block_bits(), 24);
}

#[test]
fn tables_hold_the_counts() {
    let bits = sample(1000, 3);
    let rs = index_of(&bits);
    let s = rs.super_block_bits();
    let b = rs.block_bits();
    let supers = rs.super_table().to_vec();
    let blocks = rs.block_table().to_vec();
    assert_eq!(supers[0], 0);
    assert_eq!(blocks[0], 0);
    for (k, count) in supers.iter().enumerate() {
        let expected = bits[..k * s].iter().filter(|x| **x).count();
        assert_eq!(*count as usize, expected);
    }
    for (j, count) in blocks.iter().enumerate() {
        let start = (j * b / s) * s;
        let expected = bits[start..j * b].iter().filter(|x| **x).count();
        assert_eq!(*count as usize, expected);
    }
}

#[test]
fn can_index_lengths() {
    assert!(!RankSupport::can_index(0));
    assert!(RankSupport::can_index(1));
    assert!(RankSupport::can_index(128));
    assert!(RankSupport::can_index(1 << 20));
    if usize::BITS == 64 {
        assert!(RankSupport::can_index(1 << 32));
        assert!(!RankSupport::can_index((1 << 32) + 1));
        assert!(!RankSupport::can_index(usize::MAX));
    }
}

#[test]
fn parts_of_an_index() {
    let bits = sample(500, 11);
    let rs = index_of(&bits);
    let back = RankSupport::from_parts(
        rs.bits().clone(),
        rs.super_block_bits(),
        rs.block_bits(),
        rs.super_table().clone(),
        rs.block_table().clone(),
    )
    .unwrap();
    for i in 0..500 {
        assert_eq!(back.rank1(i), rs.rank1(i));
    }
    // other sizes, other tables
    assert!(RankSupport::from_parts(
        rs.bits().clone(),
        rs.super_block_bits() + rs.block_bits(),
        rs.block_bits(),
        rs.super_table().clone(),
        rs.block_table().clone(),
    )
    .is_none());
    assert!(RankSupport::from_parts(
        rs.bits().clone(),
        rs.super_block_bits(),
        rs.block_bits() + 1,
        rs.super_table().clone(),
        rs.block_table().clone(),
    )
    .is_none());
    let mut wrong = rs.super_table().clone();
    wrong.set_int(1, wrong.get_int(1) ^ 1);
    assert!(RankSupport::from_parts(
        rs.bits().clone(),
        rs.super_block_bits(),
        rs.block_bits(),
        wrong,
        rs.block_table().clone(),
    )
    .is_none());
    let mut wrong = rs.block_table().clone();
    wrong.set_int(3, wrong.get_int(3) ^ 1);
    assert!(RankSupport::from_parts(
        rs.bits().clone(),
        rs.super_block_bits(),
        rs.block_bits(),
        rs.super_table().clone(),
        wrong,
    )
    .is_none());
    // the tables of other bits
    let mut other = rs.bits().clone();
    other.set(0, !other.get(0));
    assert!(RankSupport::from_parts(
        other,
        rs.super_block_bits(),
        rs.block_bits(),
        rs.super_table().clone(),
        rs.block_table().clone(),
    )
    .is_none());
    // no bits
    let empty = IntVec::new(1, 0);
    assert!(RankSupport::from_parts(BitVec::new(0), 1, 1, empty.clone(), empty).is_none());
}

#[test]
fn size_of_an_index() {
    let rs = index_of(&sample(300, 4));
    let parts = rs.bits().size_of() + rs.super_table().size_of() + rs.block_table().size_of();
    assert_eq!(rs.size_of(), std::mem::size_of::<RankSupport>() + parts);
    assert_eq!(rs.overhead(), rs.size_of() * 8);
}
