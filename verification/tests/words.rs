use ransel::words::rank64;
use ransel::words::select64;

#[test]
fn test_rank64_1() {
    let x: u64 = 0xdeadbeefdeadbeefu64;
    // 11011110_10101101_10111110_11101111_11011110_10101101_10111110_11101111
    assert_eq!(rank64(x, 0), 0);
    assert_eq!(rank64(x, 1), 1);
    assert_eq!(rank64(x, 4), 4);
    assert_eq!(rank64(x, 5), 4);
    assert_eq!(rank64(x, 8), 7);
    assert_eq!(rank64(x, 16), 13);
    assert_eq!(rank64(x, 32), 24);
    assert_eq!(rank64(x, 48), 37);
    assert_eq!(rank64(x, 63), 47);
    assert_eq!(rank64(x, 64), 48);
}

#[test]
fn test_select64_1() {
    let x: u64 = 0xdeadbeefdeadbeefu64;
    // 11011110_10101101_10111110_11101111_11011110_10101101_10111110_11101111
    assert_eq!(select64(x, 0), 0);
    assert_eq!(select64(x, 1), 1);
    assert_eq!(select64(x, 2), 2);
    assert_eq!(select64(x, 3), 3);
    assert_eq!(select64(x, 4), 5);
    assert_eq!(select64(x, 5), 6);
    assert_eq!(select64(x, 47), 63);
}

#[test]
fn rank64_beyond_the_word() {
    assert_eq!(rank64(u64::MAX, 65), 64);
    assert_eq!(rank64(0, 64), 0);
    assert_eq!(rank64(1 << 63, 63), 0);
    assert_eq!(rank64(1 << 63, 64), 1);
}

#[test]
fn select64_of_full_word() {
    for i in 0..64usize {
        assert_eq!(select64(u64::MAX, i), i as u64);
    }
}

#[test]
fn select64_inverts_rank64() {
    let x: u64 = 0x8000_0000_0000_0001;
    assert_eq!(select64(x, 0), 0);
    assert_eq!(select64(x, 1), 63);
    let y: u64 = 0x0123_4567_89ab_cdef;
    let mut seen = 0usize;
    for p in 0..64u64 {
        if (y >> p) & 1 == 1 {
            assert_eq!(rank64(y, p) as usize, seen);
            assert_eq!(select64(y, seen), p);
            seen += 1;
        }
    }
    assert_eq!(seen, y.count_ones() as usize);
}
