use succinct::math::{cdiv, cdiv_2, clog, fdiv_2, flog};

#[test]
fn test_clog() {
    assert_eq!(clog(1), 0);
    assert_eq!(clog(2), 1);
    assert_eq!(clog(15), 4);
    assert_eq!(clog(16), 4);
    assert_eq!(clog(8), 3);
}

#[test]
fn test_flog() {
    assert_eq!(flog(1), 0);
    assert_eq!(flog(2), 1);
    assert_eq!(flog(15), 3);
    assert_eq!(flog(16), 4);
    assert_eq!(flog(17), 4)
}

#[test]
fn test_cdiv_2() {
    assert_eq!(cdiv_2(1), 1);
    assert_eq!(cdiv_2(10), 5);
    assert_eq!(cdiv_2(9), 5)
}

#[test]
fn clog_at_the_limits() {
    assert_eq!(clog(3), 2);
    assert_eq!(clog(17), 5);
    assert_eq!(clog(usize::MAX), usize::BITS as usize);
    assert_eq!(clog((usize::MAX >> 1) + 1), usize::BITS as usize - 1);
    assert_eq!(clog((usize::MAX >> 1) + 2), usize::BITS as usize);
}

#[test]
fn flog_at_the_limits() {
    assert_eq!(flog(3), 1);
    assert_eq!(flog(usize::MAX), usize::BITS as usize - 1);
    assert_eq!(flog(usize::MAX >> 1), usize::BITS as usize - 2);
}

#[test]
fn clog_brackets_its_argument() {
    for x in 1usize..2000 {
        let v = clog(x);
        assert!(x <= 1usize << v);
        if v > 0 {
            assert!(1usize << (v - 1) < x);
        }
        let f = flog(x);
        assert!(1usize << f <= x);
        assert!(x < 1usize << (f + 1));
    }
}

#[test]
fn cdiv_rounds_up() {
    assert_eq!(cdiv(0, 3), 0);
    assert_eq!(cdiv(1, 3), 1);
    assert_eq!(cdiv(3, 3), 1);
    assert_eq!(cdiv(4, 3), 2);
    assert_eq!(cdiv(128, 24), 6);
    assert_eq!(cdiv(usize::MAX, 1), usize::MAX);
    assert_eq!(cdiv(usize::MAX, usize::MAX), 1);
    assert_eq!(cdiv(usize::MAX, 2), (usize::MAX >> 1) + 1);
}

#[test]
fn halves() {
    assert_eq!(cdiv_2(0), 0);
    assert_eq!(cdiv_2(usize::MAX), (usize::MAX >> 1) + 1);
    assert_eq!(fdiv_2(0), 0);
    assert_eq!(fdiv_2(1), 0);
    assert_eq!(fdiv_2(9), 4);
    assert_eq!(fdiv_2(10), 5);
}
