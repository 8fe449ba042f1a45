use ransel::ecode::binom;
use ransel::ecode::EnumCodeSet;

#[test]
fn binom_1() {
    assert_eq!(binom(5, 2), 10);
    assert_eq!(binom(10, 7), 120);
    assert_eq!(binom(3, 0), 1);
    assert_eq!(binom(6, 6), 1);
}

#[test]
fn rank_1() {
    let s = EnumCodeSet::new(20, 1);
    assert_eq!(s.rank(1 << 0), 0);
    assert_eq!(s.rank(1 << 1), 1);
    assert_eq!(s.rank(1 << 2), 2);
    assert_eq!(s.rank(1 << 3), 3);
    assert_eq!(s.rank(1 << 18), 18);
    assert_eq!(s.rank(1 << 19), 19);
}

#[test]
fn select_1() {
    let s = EnumCodeSet::new(5, 2);
    // All 5-bit numbers with 2 ones, in order:
    // 0b00011, 0b00101, 0b00110, 0b01001, 0b01010,
    // 0b01100, 0b10001, 0b10010, 0b10100, 0b11000
    let expected = [
        0b00011, 0b00101, 0b00110, 0b01001, 0b01010, 0b01100, 0b10001, 0b10010, 0b10100, 0b11000,
    ];
    for (i, &val) in expected.iter().enumerate() {
        let i = i as u64;
        assert_eq!(s.select(i), val);
        assert_eq!(s.rank(val), i);
    }
}

#[test]
fn binom_edges() {
    assert_eq!(binom(0, 0), 1);
    assert_eq!(binom(0, 1), 0);
    assert_eq!(binom(4, 5), 0);
    assert_eq!(binom(64, 1), 64);
    assert_eq!(binom(64, 32), 1832624140942590534);
    assert_eq!(binom(63, 31), 916312070471295267);
    assert_eq!(binom(62, 60), 1891);
}

#[test]
fn code_bits() {
    assert_eq!(EnumCodeSet::new(5, 2).bits(), 4);
    assert_eq!(EnumCodeSet::new(5, 0).bits(), 0);
    assert_eq!(EnumCodeSet::new(5, 6).bits(), 0);
    assert_eq!(EnumCodeSet::new(4, 1).bits(), 2);
    assert_eq!(EnumCodeSet::new(5, 1).bits(), 3);
    assert_eq!(EnumCodeSet::new(64, 32).bits(), 61);
    assert_eq!(EnumCodeSet::new(2, 1).bits(), 1);
}

#[test]
fn code_rank_select_all_words() {
    for n in 1..=10u64 {
        for k in 0..=n {
            let s = EnumCodeSet::new(n, k);
            let total = binom(n, k);
            let mut seen = 0u64;
            for x in 0..(1u64 << n) {
                if x.count_ones() as u64 == k {
                    assert_eq!(s.rank(x), seen);
                    assert_eq!(s.select(seen), x);
                    seen += 1;
                }
            }
            assert_eq!(seen, total);
        }
    }
}

#[test]
fn code_of_wide_words() {
    let s = EnumCodeSet::new(63, 2);
    assert_eq!(s.rank(0b11), 0);
    assert_eq!(s.rank((1 << 62) | (1 << 61)), binom(63, 2) - 1);
    assert_eq!(s.select(binom(63, 2) - 1), (1 << 62) | (1 << 61));
    let t = EnumCodeSet::new(64, 64);
    assert_eq!(t.select(0), u64::MAX);
    let u = EnumCodeSet::new(64, 1);
    assert_eq!(u.select(63), 1 << 63);
}
