use succinct::bv::{BitVec, IntVec};

#[test]
fn mask() {
    assert_eq!(BitVec::get_mask(31, 0), 0);
    assert_eq!(BitVec::get_mask(31, 1), 1);
    assert_eq!(BitVec::get_mask(29, 2), 6);
}

#[test]
fn check_val() {
    assert!(BitVec::val_fits(1, 3));
    assert!(BitVec::val_fits(7, 3));
    assert!(!(BitVec::val_fits(8, 3)));
}

#[test]
fn set_easy() {
    let mut v = BitVec::new(32);
    v.set_int(0, 99, 32);
    assert_eq!(v.blocks()[0], 99);

    let mut v = BitVec::new(64);
    v.set_int(64 - 9, 7, 9);
    assert_eq!(v.blocks()[1], 7);

    let mut v = BitVec::new(128);
    v.set_int(128 - 32, 107, 31);
    assert_eq!(v.blocks()[3], 214);
}

#[test]
fn get_easy() {
    let mut v = BitVec::new(32);
    v.set_int(0, 99, 32);
    assert_eq!(v.get_int(0, 32), 99);

    let mut v = BitVec::new(64);
    v.set_int(64 - 9, 7, 9);
    assert_eq!(v.get_int(64 - 9, 9), 7);

    let mut v = BitVec::new(128);
    v.set_int(96, 107, 31);
    assert_eq!(v.get_int(96, 31), 107);
}

#[test]
fn set_boundary() {
    // | 7, 7, 7, 7, [4 | 3], 7, 7, 7, 7, (1)|
    let mut v = BitVec::new(127);
    v.set_int(61, 31, 5);
    assert_eq!(v.blocks()[1], 7);
    assert_eq!(v.blocks()[2], 3 << 30);
}

#[test]
fn get_boundary() {
    //insert 1100011
    //get 10001
    let mut v = BitVec::new(127);
    v.set_int(60, 0b1100011 as u32, 7);
    assert_eq!(v.get_int(61, 5), 17);
}

#[test]
fn fuzz_get_set() {
    let mut v = IntVec::new(7, 100);
    for i in 0..100 {
        v.set_int(i, (i % 128) as u32);
    }
    for i in 0..100 {
        assert_eq!(v.get_int(i), (i % 128) as u32);
    }
}

#[test]
fn new_is_clear_and_sized() {
    for n in [0usize, 1, 31, 32, 33, 64, 100] {
        let v = BitVec::new(n);
        assert_eq!(v.len(), n);
        assert_eq!(v.blocks().len(), (n + 31) / 32);
        for i in 0..n {
            assert!(!v.get(i));
        }
    }
}

#[test]
fn mask_of_every_run() {
    assert_eq!(BitVec::get_mask(0, 32), u32::MAX);
    assert_eq!(BitVec::get_mask(0, 0), 0);
    assert_eq!(BitVec::get_mask(32, 0), 0);
    assert_eq!(BitVec::get_mask(0, 1), 1 << 31);
    assert_eq!(BitVec::get_mask(4, 8), 0x0ff0_0000);
    for i in 0..=32usize {
        for r in 0..=(32 - i) {
            let m = BitVec::get_mask(i, r);
            for k in 0..32usize {
                let bit = (m >> (31 - k)) & 1 == 1;
                assert_eq!(bit, i <= k && k < i + r);
            }
        }
    }
}

#[test]
fn val_fits_wide_words() {
    assert!(BitVec::val_fits(0, 0));
    assert!(!BitVec::val_fits(1, 0));
    assert!(BitVec::val_fits(u32::MAX, 32));
    assert!(!BitVec::val_fits(u32::MAX, 31));
    assert!(BitVec::val_fits(u32::MAX, 64));
    assert!(BitVec::val_fits(u32::MAX, 200));
}

#[test]
fn set_int_round_trip_everywhere() {
    let n = 100usize;
    for w in 1..=32usize {
        let v_max: u32 = if w == 32 { u32::MAX } else { (1u32 << w) - 1 };
        for i in 0..=(n - w) {
            for v in [0u32, 1, v_max, v_max / 3, v_max / 2 + 1] {
                let mut bv = BitVec::new(n);
                for q in 0..n {
                    bv.set(q, q % 3 == 0);
                }
                let before = bv.to_vec();
                bv.set_int(i, v, w);
                assert_eq!(bv.get_int(i, w), v);
                let after = bv.to_vec();
                for q in 0..n {
                    if q < i || q >= i + w {
                        assert_eq!(after[q], before[q]);
                    } else {
                        assert_eq!(after[q], (v >> (w - 1 - (q - i))) & 1 == 1);
                    }
                }
            }
        }
    }
}

#[test]
fn writes_apart_commute() {
    let mut a = BitVec::new(96);
    a.set_int(3, 0x155, 9);
    a.set_int(30, 0xabcde, 20);
    let mut b = BitVec::new(96);
    b.set_int(30, 0xabcde, 20);
    b.set_int(3, 0x155, 9);
    assert_eq!(a.to_vec(), b.to_vec());
    assert_eq!(a.blocks(), b.blocks());
    assert_eq!(a.get_int(3, 9), 0x155);
    assert_eq!(a.get_int(30, 20), 0xabcde);
}

#[test]
fn empty_reads_and_writes() {
    let mut v = BitVec::new(32);
    v.set_int(32, 0, 0);
    assert_eq!(v.get_int(32, 0), 0);
    assert_eq!(v.get_int(5, 0), 0);
    assert_eq!(v.blocks()[0], 0);
}

#[test]
fn padding_stays_clear() {
    let mut v = BitVec::new(33);
    v.set_int(1, u32::MAX, 32);
    assert_eq!(v.blocks()[0], 0x7fff_ffff);
    assert_eq!(v.blocks()[1], 0x8000_0000);
    v.set(0, true);
    assert_eq!(v.blocks()[0], u32::MAX);
    v.set(32, false);
    assert_eq!(v.blocks()[1], 0);
}

#[test]
fn from_bytes_is_msb_first() {
    let bv = BitVec::from_bytes(&vec![0b1010_0011, 0b1100_0010]);
    assert_eq!(bv.len(), 16);
    let bits: Vec<bool> = "1010001111000010".chars().map(|c| c == '1').collect();
    assert_eq!(bv.to_vec(), bits);
    assert_eq!(bv.get_int(0, 8), 0b1010_0011);
    assert_eq!(bv.get_int(8, 8), 0b1100_0010);
    assert_eq!(bv.get_int(4, 8), 0b0011_1100);
}

#[test]
fn from_padded_bytes_drops_the_tail() {
    let bytes = vec![0b1010_0011, 0b1100_0010];
    for pad in 0..=8usize {
        let bv = BitVec::from_padded_bytes(&bytes, pad);
        assert_eq!(bv.len(), 16 - pad);
        let all: Vec<bool> = "1010001111000010".chars().map(|c| c == '1').collect();
        assert_eq!(bv.to_vec(), all[..16 - pad].to_vec());
    }
    let one = BitVec::from_padded_bytes(&vec![0xffu8], 8);
    assert_eq!(one.len(), 0);
}

#[test]
fn int_vec_widths() {
    for w in 1..=32usize {
        let v_max: u32 = if w == 32 { u32::MAX } else { (1u32 << w) - 1 };
        let mut iv = IntVec::new(w, 10);
        assert_eq!(iv.len(), 10);
        assert_eq!(iv.w_size(), w);
        assert_eq!(iv.to_vec(), vec![0u32; 10]);
        for i in 0..10 {
            iv.set_int(i, v_max - (i as u32 % 2));
        }
        iv.set_int(4, 0);
        for i in 0..10 {
            let expected = if i == 4 { 0 } else { v_max - (i as u32 % 2) };
            assert_eq!(iv.get_int(i), expected);
        }
    }
}

#[test]
fn int_vec_from_vec_and_back() {
    let elems = vec![1u32, 2, 3, 0, 7, 5];
    let iv = IntVec::from_vec(&elems, 3);
    assert_eq!(iv.len(), 6);
    assert_eq!(iv.to_vec(), elems);
    assert_eq!(iv.get_int(4), 7);
    let none = IntVec::from_vec(&vec![], 5);
    assert_eq!(none.len(), 0);
    assert_eq!(none.to_vec(), Vec::<u32>::new());
}

#[test]
fn clones_are_apart() {
    let mut a = BitVec::new(40);
    a.set_int(2, 0x3ff, 10);
    let b = a.clone();
    a.set(0, true);
    assert_eq!(b.to_vec()[0], false);
    assert_eq!(b.get_int(2, 10), 0x3ff);
    let mut iv = IntVec::from_vec(&vec![4, 5, 6], 3);
    let jv = iv.clone();
    iv.set_int(1, 0);
    assert_eq!(jv.to_vec(), vec![4, 5, 6]);
}

#[test]
fn from_blocks_takes_the_words_of_a_vector() {
    let mut v = BitVec::new(70);
    v.set_int(0, 0xdead_beef, 32);
    v.set_int(40, 0x3fff_ffff, 30);
    let back = BitVec::from_blocks(70, v.blocks().clone()).unwrap();
    assert_eq!(back.len(), 70);
    assert_eq!(back.to_vec(), v.to_vec());
    assert!(back.same(&v));
    assert!(BitVec::from_blocks(0, vec![]).is_some());
    assert!(BitVec::from_blocks(64, vec![1, 2]).is_some());
}

#[test]
fn from_blocks_refuses_other_words() {
    // too few and too many words
    assert!(BitVec::from_blocks(70, vec![0, 0]).is_none());
    assert!(BitVec::from_blocks(70, vec![0, 0, 0, 0]).is_none());
    assert!(BitVec::from_blocks(0, vec![0]).is_none());
    // a bit behind the last bit
    assert!(BitVec::from_blocks(70, vec![0, 0, 1]).is_none());
    assert!(BitVec::from_blocks(70, vec![0, 0, 1 << 25]).is_none());
    assert!(BitVec::from_blocks(70, vec![0, 0, 1 << 26]).is_some());
    assert!(BitVec::from_blocks(1, vec![0x4000_0000]).is_none());
    assert!(BitVec::from_blocks(1, vec![0x8000_0000]).is_some());
}

#[test]
fn same_compares_bits() {
    let mut a = BitVec::new(100);
    let mut b = BitVec::new(100);
    assert!(a.same(&b));
    a.set(99, true);
    assert!(!a.same(&b));
    b.set(99, true);
    assert!(a.same(&b));
    b.set(31, true);
    assert!(!a.same(&b));
    assert!(!BitVec::new(99).same(&BitVec::new(100)));
    assert!(BitVec::new(0).same(&BitVec::new(0)));
}

#[test]
fn int_vec_parts() {
    let iv = IntVec::from_vec(&vec![9, 0, 31, 17], 5);
    assert_eq!(iv.bits().len(), 20);
    let back = IntVec::from_parts(5, 4, iv.bits().clone()).unwrap();
    assert_eq!(back.to_vec(), vec![9, 0, 31, 17]);
    assert!(back.same(&iv));
    assert!(IntVec::from_parts(4, 5, iv.bits().clone()).unwrap().to_vec() != vec![9, 0, 31, 17]);
    assert!(IntVec::from_parts(5, 3, iv.bits().clone()).is_none());
    assert!(IntVec::from_parts(0, 4, iv.bits().clone()).is_none());
    assert!(IntVec::from_parts(33, 4, BitVec::new(132)).is_none());
    assert!(IntVec::from_parts(usize::MAX, 2, BitVec::new(0)).is_none());
    let other = IntVec::from_vec(&vec![9, 0, 31, 16], 5);
    assert!(!other.same(&iv));
    assert!(!IntVec::new(5, 4).same(&IntVec::new(4, 5)));
}

#[test]
fn sizes_in_bytes() {
    let small = BitVec::new(1);
    let large = BitVec::new(32 * 10 + 1);
    assert_eq!(small.size_of(), std::mem::size_of::<BitVec>() + 4);
    assert_eq!(large.size_of(), std::mem::size_of::<BitVec>() + 44);
    let iv = IntVec::new(7, 100);
    assert_eq!(iv.size_of(), std::mem::size_of::<IntVec>() + iv.bits().size_of());
    assert_eq!(iv.bits().len(), 700);
}
