use succinct::bv::BitVec;
use succinct::math::clog;
use succinct::rank_select::RankSupport;
use succinct::wt::{count_chars, CharTable, WTBuilder, WT};

#[test]
fn access() {
    let s = "abracadabra";
    let wt = WT::new(&s);
    for (i, c) in s.chars().enumerate() {
        assert_eq!(wt.access(i), c);
    }

    let s = "yabadabadoy";
    let wt = WT::new(&s);
    for (i, c) in s.chars().enumerate() {
        assert_eq!(wt.access(i), c);
    }

    let s = "tomorrow and tomorrow and tomorrow";
    let wt = WT::new(&s);
    for (i, c) in s.chars().enumerate() {
        assert_eq!(wt.access(i), c);
    }
}

#[test]
fn select() {
    let s = "abracadabra";
    let wt = WT::new(&s);
    for (i, c) in s.chars().enumerate() {
        println!("{}, {}", i, c);
        assert_eq!(i, wt.select(c, wt.rank(c, i)).unwrap());
    }

    let s = "yabadabadoo";
    let wt = WT::new(&s);
    for (i, c) in s.chars().enumerate() {
        println!("{}, {}", i, c);
        assert_eq!(i, wt.select(c, wt.rank(c, i)).unwrap());
    }

    let s = "aaaaaaa";
    let wt = WT::new(&s);
    for (i, c) in s.chars().enumerate() {
        println!("{}, {}", i, c);
        assert_eq!(i, wt.select(c, wt.rank(c, i)).unwrap());
    }
}

#[test]
fn rank() {
    let s = "abracadabra";
    let wt = WT::new(&s);
    let ranks = [1, 1, 1, 2, 1, 3, 1, 4, 2, 2, 5];
    for (i, c) in s.chars().enumerate() {
        assert_eq!(wt.rank(c, i), ranks[i]);
    }

    let s = "yabadabadoy";
    let wt = WT::new(&s);
    let ranks = [1, 1, 1, 2, 1, 3, 2, 4, 2, 1, 2];
    for (i, c) in s.chars().enumerate() {
        assert_eq!(wt.rank(c, i), ranks[i]);
    }

    let s = "aaaaa";
    let ranks = [1, 2, 3, 4, 5];
    let wt = WT::new(&s);
    for (i, c) in s.chars().enumerate() {
        assert_eq!(wt.rank(c, i), ranks[i]);
    }
}

#[test]
fn rank_hard() {
    let s = "yabadabadooy";
    let wt = WT::new(&s);
    let ranks = [0, 1, 1, 2, 2, 3, 3, 4, 4, 4, 4, 4];
    for (i, _c) in s.chars().enumerate() {
        assert_eq!(wt.rank('a', i), ranks[i]);
    }

    let ranks = [0, 0, 1, 1, 1, 1, 2, 2, 2, 2, 2, 2];
    for (i, _c) in s.chars().enumerate() {
        assert_eq!(wt.rank('b', i), ranks[i]);
    }

    let ranks = [0, 0, 0, 0, 1, 1, 1, 1, 2, 2, 2, 2];
    for (i, _c) in s.chars().enumerate() {
        assert_eq!(wt.rank('d', i), ranks[i]);
    }

    let ranks = [0, 0, 0, 0, 0, 0, 0, 0, 0, 1, 2, 2];
    for (i, _c) in s.chars().enumerate() {
        assert_eq!(wt.rank('o', i), ranks[i]);
    }

    let ranks = [1, 1, 1, 1, 1, 1, 1, 1, 1, 1, 1, 2];
    for (i, _c) in s.chars().enumerate() {
        assert_eq!(wt.rank('y', i), ranks[i]);
    }
}

#[test]
fn count_c() {
    let s = "0167154263";
    assert_eq!(count_chars(&s), 8);
}

#[test]
fn wt_new() {
    let s = "0167154263";
    let n = 10_usize;
    let sigma = 8_usize;

    let wtb = WTBuilder::new(&s);

    assert_eq!(wtb.hist().len(), sigma);
    assert_eq!(wtb.hist().w_size(), clog(n));
    assert_eq!(wtb.spos().len(), sigma);
    assert_eq!(wtb.spos().w_size(), clog(n));
}

fn bv_same(v1: &[bool], v2: &[bool]) -> bool {
    v1.iter().zip(v2).all(|(b1, b2)| b1 == b2)
}

#[test]
fn build() {
    let s = "0167154263";
    let mut wtb = WTBuilder::new(&s);
    wtb.build();
    let bv0 = [false, false, true, true, false, true, true, false, true, false];
    assert!(bv_same(&bv0, &wtb.levels()[0].to_vec()));

    let bv1 = [false, false, false, true, true, true, true, false, false, true];
    assert!(bv_same(&bv1, &wtb.levels()[1].to_vec()));

    let bv2 = [false, true, true, false, true, true, false, false, true, false];
    assert!(bv_same(&bv2, &wtb.levels()[2].to_vec()));

    let s = "01234";
    let mut wtb = WTBuilder::new(&s);
    assert_eq!(wtb.hist().len(), 8);
    wtb.build();
}

#[test]
fn init_hist() {
    let s = "dccbbbaaaa";
    let mut wtb = WTBuilder::new(&s);
    wtb.init_hist();

    assert_eq!(wtb.hist().get_int(0), 4);
    assert_eq!(wtb.hist().get_int(1), 3);
    assert_eq!(wtb.hist().get_int(2), 2);
    assert_eq!(wtb.hist().get_int(3), 1);
}

#[test]
fn init_bv() {
    let s = "0167154263";
    let mut wtb = WTBuilder::new(&s);
    wtb.init_bv();
    let bits = [false, false, true, true, false, true, true, false, true, false];
    let bv0 = &wtb.levels()[0];
    for i in 0..bv0.len() {
        assert_eq!(bv0.get(i), bits[i]);
    }
}

#[test]
fn char_table() {
    let ct = CharTable::new("0167154263");
    assert_eq!(ct.i('0'), 0);
    assert_eq!(ct.i('1'), 1);
    assert_eq!(ct.i('2'), 2);
    assert_eq!(ct.i('3'), 3);
    assert_eq!(ct.i('4'), 4);
    assert_eq!(ct.i('5'), 5);
    assert_eq!(ct.i('6'), 6);
    assert_eq!(ct.i('7'), 7);
    assert_eq!(ct.get_bit(0, '5'), true);
    assert_eq!(ct.get_bit(1, '5'), false);
    assert_eq!(ct.get_bit(2, '5'), true);

    assert_eq!(ct.get_prefix(3, '7'), 7);
    assert_eq!(ct.get_prefix(2, '7'), 3);
    assert_eq!(ct.get_prefix(1, '7'), 1);

    assert_eq!(ct.get_prefix(3, '0'), 0);
    assert_eq!(ct.get_prefix(2, '0'), 0);
    assert_eq!(ct.get_prefix(1, '0'), 0);

    assert_eq!(ct.get_prefix(3, '5'), 5);
    assert_eq!(ct.get_prefix(2, '5'), 2);
    assert_eq!(ct.get_prefix(1, '5'), 1);

    assert_eq!(ct.get_prefix(3, '6'), 6);
    assert_eq!(ct.get_prefix(2, '6'), 3);
    assert_eq!(ct.get_prefix(1, '6'), 1);

    let ct = CharTable::new("tcga");
    assert_eq!(ct.i('a'), 0);
    assert_eq!(ct.i('c'), 1);
    assert_eq!(ct.i('g'), 2);
    assert_eq!(ct.i('t'), 3);

    assert_eq!(ct.get_bit(0, 'a'), false);
    assert_eq!(ct.get_bit(1, 'a'), false);
    assert_eq!(ct.get_bit(0, 'c'), false);
    assert_eq!(ct.get_bit(1, 'c'), true);
    assert_eq!(ct.get_bit(0, 'g'), true);
    assert_eq!(ct.get_bit(1, 'g'), false);
    assert_eq!(ct.get_bit(0, 't'), true);
    assert_eq!(ct.get_bit(1, 't'), true);
}

#[test]
fn get_char() {
    let ct = CharTable::new("0167154263");
    assert_eq!(ct.get_char(0), '0');
    assert_eq!(ct.get_char(1), '1');
    assert_eq!(ct.get_char(2), '2');
    assert_eq!(ct.get_char(3), '3');
    assert_eq!(ct.get_char(4), '4');
    assert_eq!(ct.get_char(5), '5');
    assert_eq!(ct.get_char(6), '6');
    assert_eq!(ct.get_char(7), '7');
}

#[test]
fn char_table_membership() {
    let ct = CharTable::new("tcga");
    assert_eq!(ct.n_chars(), 4);
    assert!(ct.in_charset('a'));
    assert!(ct.in_charset('t'));
    assert!(!ct.in_charset('b'));
    assert!(!ct.in_charset('\u{7f}'));
    assert!(!ct.in_charset('\u{80}'));
    assert!(!ct.in_charset('é'));
    let copy = ct.clone();
    assert_eq!(copy.n_chars(), 4);
    assert_eq!(copy.i('g'), 2);
    for code in 0..4 {
        assert_eq!(ct.i(ct.get_char(code)), code);
    }
}

#[test]
fn count_chars_counts_distinct() {
    assert_eq!(count_chars(""), 0);
    assert_eq!(count_chars("a"), 1);
    assert_eq!(count_chars("aaaaa"), 1);
    assert_eq!(count_chars("abracadabra"), 5);
    assert_eq!(count_chars("tomorrow and tomorrow and tomorrow"), 9);
    let all: String = (0u8..128).map(|b| b as char).collect();
    assert_eq!(count_chars(&all), 128);
}

#[test]
fn abracadabra() {
    let wt = WT::new("abracadabra");
    let ranks = [1, 1, 1, 2, 2, 3, 3, 4, 4, 4, 5];
    for i in 0..11 {
        assert_eq!(wt.rank('a', i), ranks[i]);
    }
    assert_eq!(wt.select('r', 2), Some(9));
    assert_eq!(wt.access(7), 'a');
    assert_eq!(wt.len(), 11);
    assert_eq!(wt.n_chars(), 5);
}

#[test]
fn single_symbol() {
    let wt = WT::new("aaaaa");
    assert_eq!(wt.rank('a', 4), 5);
    assert_eq!(wt.select('a', 3), Some(2));
    assert_eq!(wt.access(0), 'a');
    assert_eq!(wt.select('a', 5), Some(4));
    assert_eq!(wt.select('a', 6), None);
    assert_eq!(wt.select('a', 0), None);
    assert_eq!(wt.n_chars(), 1);

    let one = WT::new("z");
    assert_eq!(one.len(), 1);
    assert_eq!(one.access(0), 'z');
    assert_eq!(one.rank('z', 0), 1);
    assert_eq!(one.select('z', 1), Some(0));
    assert_eq!(one.select('z', 2), None);
}

#[test]
fn select_misses() {
    let wt = WT::new("abracadabra");
    assert_eq!(wt.select('a', 5), Some(10));
    assert_eq!(wt.select('a', 6), None);
    assert_eq!(wt.select('a', 0), None);
    assert_eq!(wt.select('c', 1), Some(4));
    assert_eq!(wt.select('c', 2), None);
    assert_eq!(wt.select('d', 2), None);
    assert_eq!(wt.select('b', 3), None);
    assert_eq!(wt.select('r', usize::MAX), None);
    let abcd = WT::new("abcdc");
    assert_eq!(abcd.select('a', 2), None);
    assert_eq!(abcd.select('c', 2), Some(4));
    assert_eq!(abcd.select('c', 3), None);
}

fn sample_text(n: usize, sigma: u8, seed: u64) -> String {
    let mut x = seed;
    let mut s = String::new();
    for _ in 0..n {
        x = x.wrapping_mul(6364136223846793005).wrapping_add(1442695040888963407);
        let k = ((x >> 33) % sigma as u64) as u8;
        s.push((b'!' + 3 * (k % 32) + k / 32) as char);
    }
    s
}

#[test]
fn queries_agree_with_the_text() {
    for (n, sigma) in
        [(1usize, 1u8), (2, 2), (3, 2), (4, 2), (8, 3), (16, 4), (17, 5), (64, 8), (100, 9), (300, 31), (500, 90)]
    {
        let s = sample_text(n, sigma, n as u64 * 31 + sigma as u64);
        let text: Vec<char> = s.chars().collect();
        let wt = WT::new(&s);
        assert_eq!(wt.len(), n);
        assert_eq!(wt.n_chars(), count_chars(&s));
        let table = CharTable::new(&s);
        for c in (0u8..128).map(|b| b as char) {
            if !table.in_charset(c) {
                continue;
            }
            let mut count = 0usize;
            for i in 0..n {
                if text[i] == c {
                    count += 1;
                    assert_eq!(wt.select(c, count), Some(i));
                }
                assert_eq!(wt.rank(c, i), count);
            }
            assert_eq!(wt.select(c, count + 1), None);
        }
        for i in 0..n {
            assert_eq!(wt.access(i), text[i]);
            assert_eq!(wt.select(text[i], wt.rank(text[i], i)), Some(i));
        }
    }
}

#[test]
fn power_of_two_lengths() {
    for s in ["ab", "abab", "aaab", "abbbbbbb", "abcdabcdabcdabcd", "aaaaaaaaaaaaaaab"] {
        let wt = WT::new(s);
        for (i, c) in s.chars().enumerate() {
            assert_eq!(wt.access(i), c);
            assert_eq!(wt.select(c, wt.rank(c, i)), Some(i));
        }
    }
}

#[test]
fn builder_levels() {
    let mut wtb = WTBuilder::new("abracadabra");
    assert_eq!(wtb.levels().len(), 3);
    assert_eq!(wtb.hist().to_vec(), vec![0u32; 8]);
    wtb.build();
    // codes: a 0, b 1, c 2, d 3, r 4
    let top: Vec<bool> = "00100000010".chars().map(|c| c == '1').collect();
    assert_eq!(wtb.levels()[0].to_vec(), top);
    let wt = wtb.finish();
    assert_eq!(wt.access(2), 'r');
    assert_eq!(wt.rank('b', 10), 2);
}

#[test]
fn parts_of_a_table() {
    let ct = CharTable::new("abracadabra");
    assert_eq!(ct.width(), 3);
    assert_eq!(ct.rank_support().len(), 128);
    let back = CharTable::from_parts(ct.rank_support().clone(), ct.width()).unwrap();
    assert_eq!(back.n_chars(), 5);
    assert_eq!(back.i('r'), 4);
    assert!(CharTable::from_parts(ct.rank_support().clone(), 2).is_none());
    assert!(CharTable::from_parts(ct.rank_support().clone(), 4).is_none());
    assert!(CharTable::from_parts(RankSupport::new(BitVec::new(128)), 0).is_none());
    assert!(CharTable::from_parts(RankSupport::new(BitVec::new(127)), 0).is_none());
    let mut one = BitVec::new(128);
    one.set(65, true);
    let single = CharTable::from_parts(RankSupport::new(one), 0).unwrap();
    assert_eq!(single.get_char(0), 'A');
    assert_eq!(ct.size_of(), std::mem::size_of::<CharTable>() + ct.rank_support().size_of());
}

fn parts_of(wt: &WT) -> (usize, Vec<RankSupport>, CharTable) {
    (wt.len(), wt.levels().clone(), wt.char_table().clone())
}

#[test]
fn parts_of_a_tree() {
    for s in ["abracadabra", "a", "aaaa", "ab", "tomorrow and tomorrow and tomorrow", "0167154263"] {
        let wt = WT::new(s);
        assert_eq!(wt.levels().len(), wt.char_table().width());
        for level in wt.levels() {
            assert_eq!(level.len(), s.len());
        }
        let (n, levels, table) = parts_of(&wt);
        let back = WT::from_parts(n, levels, table).unwrap();
        assert_eq!(back.len(), s.len());
        for (i, c) in s.chars().enumerate() {
            assert_eq!(back.access(i), c);
            assert_eq!(back.rank(c, i), wt.rank(c, i));
            assert_eq!(back.select(c, back.rank(c, i)), Some(i));
        }
    }
}

#[test]
fn parts_of_no_tree() {
    let wt = WT::new("abracadabra");
    // another length
    let (_, levels, table) = parts_of(&wt);
    assert!(WT::from_parts(10, levels, table).is_none());
    let (_, levels, table) = parts_of(&wt);
    assert!(WT::from_parts(0, levels, table).is_none());
    // a level too few, a level too many
    let (n, mut levels, table) = parts_of(&wt);
    levels.pop();
    assert!(WT::from_parts(n, levels, table).is_none());
    let (n, mut levels, table) = parts_of(&wt);
    levels.push(RankSupport::new(BitVec::new(11)));
    assert!(WT::from_parts(n, levels, table).is_none());
    // the table of another alphabet
    let (n, levels, _) = parts_of(&wt);
    assert!(WT::from_parts(n, levels, CharTable::new("abcdefgh")).is_none());
    // the table of another alphabet of the same size: the tree of another text
    let (n, levels, _) = parts_of(&wt);
    let shifted = WT::from_parts(n, levels, CharTable::new("vwxyz")).unwrap();
    let text: String = (0..11).map(|i| shifted.access(i)).collect();
    assert_eq!(text, "vwzvxvyvwzv");
    // levels that spell a code without a character: five characters have the codes 0 to 4
    let (n, mut levels, table) = parts_of(&wt);
    let mut ones = BitVec::new(11);
    for i in 0..11 {
        ones.set(i, true);
    }
    levels[0] = RankSupport::new(ones.clone());
    levels[1] = RankSupport::new(ones.clone());
    levels[2] = RankSupport::new(ones);
    assert!(WT::from_parts(n, levels, table).is_none());
    // levels of another text over the same alphabet are a tree, of that text
    let other = WT::new("arbadacarba");
    let (n, levels, _) = parts_of(&other);
    let (_, _, table) = parts_of(&wt);
    let tree = WT::from_parts(n, levels, table).unwrap();
    assert_eq!(tree.access(1), 'r');
}

#[test]
fn size_of_a_tree() {
    let wt = WT::new("abracadabra");
    let level = wt.levels()[0].size_of();
    assert_eq!(wt.size_of(), std::mem::size_of::<WT>() + 3 * level + wt.char_table().size_of());
    let flat = WT::new("aaaa");
    assert_eq!(flat.size_of(), std::mem::size_of::<WT>() + flat.char_table().size_of());
}
