use ransel::error::BuildError;
use ransel::error::LoadError;
use ransel::persist::Persistent;
use ransel::persist::Source;
use ransel::rank::Rank;
use ransel::select::Select;
use ransel::select::Select0;
use ransel::set::ImpliedSet;
use ransel::sorted::Sorted;
use ransel::sparse::Sparse;
use std::collections::HashSet;

struct MiniRng {
    x: u64,
}

impl MiniRng {
    fn new(seed: u64) -> MiniRng {
        MiniRng { x: seed }
    }

    fn rnd(&mut self) -> u64 {
        self.x = self.x.wrapping_mul(2862933555777941757u64);
        self.x = self.x.wrapping_add(3037000493u64);
        self.x
    }
}

fn make_set(b: usize, n: usize) -> Vec<u64> {
    let m = (1u64 << b) - 1;
    let mut rng = MiniRng::new(0xfbdb8b2bcc6674b8u64);
    let mut s = HashSet::new();
    while s.len() < n {
        let x: u64 = (rng.rnd() ^ (rng.rnd() << 32) ^ (rng.rnd() >> 32)) & m;
        s.insert(x);
    }
    let mut res = Vec::from_iter(s.iter().map(|v| *v));
    res.sort();
    res
}

#[test]
fn test_sparse_build_1() {
    let b: usize = 20;
    let n: usize = 1024;
    let xs = make_set(b, n);
    let s = Sparse::new(b, n, &xs).expect("build failed");
    assert_eq!(s.size(), 1u64 << b);
    assert_eq!(s.count(), n);
    assert_eq!(s.b(), b);
    assert_eq!(s.n(), n);
    assert_eq!(s.d(), 9);
    assert_eq!(s.hi().count(), 2049);
    assert_eq!(s.hi().size(), 2049 + n as u64);
    assert_eq!(s.lo().len(), n);
}

#[test]
fn test_sparse_rank_1() {
    let b: usize = 20;
    let n: usize = 1024;
    let xs = make_set(b, n);
    let s = Sparse::new(b, n, &xs).expect("build failed");
    assert_eq!(s.b(), b);
    assert_eq!(s.n(), n);
    assert_eq!(s.d(), 9);
    assert_eq!(s.hi().count(), 2049);
    assert_eq!(s.hi().size(), 2049 + n as u64);
    assert_eq!(s.lo().len(), n);
    for i in 0..xs.len() {
        let x = xs[i];
        let r = s.rank(x);
        assert_eq!(r, i);
    }
}

#[test]
fn test_sparse_select_1() {
    let b: usize = 20;
    let n: usize = 1024;
    let xs = make_set(b, n);
    let s = Sparse::new(b, n, &xs).expect("build failed");
    assert_eq!(s.b(), b);
    assert_eq!(s.n(), n);
    assert_eq!(s.d(), 9);
    assert_eq!(s.hi().count(), 2049);
    assert_eq!(s.hi().size(), 2049 + n as u64);
    assert_eq!(s.lo().len(), n);
    for i in 0..xs.len() {
        let x = xs[i];
        let y = s.select(i);
        assert_eq!(y, x);
    }
}

#[test]
fn sparse_single_bucket() {
    let xs: Vec<u64> = vec![3, 9, 25];
    let s = Sparse::new(5, 3, &xs).expect("build failed");
    assert_eq!(s.d(), 2);
    assert_eq!(s.lo().len(), 3);
    assert_eq!(s.lo().get(0), 3);
    assert_eq!(s.lo().get(1), 1);
    assert_eq!(s.lo().get(2), 1);
    // The high parts 0, 2 and 6 in unary, with 2^3 + 1 one-bits in all.
    assert_eq!(s.hi().size(), 3 + 8 + 1);
    assert_eq!(s.hi().count(), 9);
    let mut hi_bytes: Vec<u8> = Vec::new();
    s.hi().save(&mut hi_bytes);
    // One word holds the 12 bits of the high parts.
    assert_eq!(&hi_bytes[8..16], &[1, 0, 0, 0, 0, 0, 0, 0]);
    assert_eq!(s.hi().select_0(0), 0 + 0 + 1);
    assert_eq!(s.hi().select_0(1), 1 + 2 + 1);
    assert_eq!(s.hi().select_0(2), 2 + 6 + 1);
    assert_eq!(s.rank(9), 1);
    assert_eq!(s.select(2), 25);
    assert_eq!(s.contains(10), false);
    assert_eq!(s.rank_2(4, 10), (1, 2));
    assert_eq!(s.rank_2(3, 4), (0, 1));
    assert_eq!(s.rank_2(8, 11), (1, 2));
    assert_eq!(s.rank_2(0, 31), (0, 3));
    assert_eq!(s.rank_2(9, 32), (1, 3));
    assert_eq!(s.access_and_rank(25), (2, true));
    assert_eq!(s.size(), 32);
    assert_eq!(s.rank(32), 3);
    assert_eq!(s.rank(u64::MAX), 3);
}

#[test]
fn sparse_empty() {
    let xs: Vec<u64> = vec![];
    let s = Sparse::new(8, 0, &xs).expect("build failed");
    assert_eq!(s.d(), 8);
    assert_eq!(s.hi().size(), 2);
    assert_eq!(s.hi().count(), 2);
    assert_eq!(s.count(), 0);
    for v in 0..300u64 {
        assert_eq!(s.rank(v), 0);
    }
    assert_eq!(s.select_0(0), 0);
    assert_eq!(s.select_0(255), 255);
}

#[test]
fn sparse_low_width_extremes() {
    // As many elements as the domain holds: no low bits at all.
    let all: Vec<u64> = (0..16u64).collect();
    let s = Sparse::new(4, 16, &all).expect("build failed");
    assert_eq!(s.d(), 0);
    assert_eq!(s.hi().count(), 17);
    for v in 0..16u64 {
        assert_eq!(s.rank(v), v as usize);
        assert_eq!(s.select(v as usize), v);
        assert!(s.contains(v));
    }
    // A single element: the formula gives 2 low bits for 3 bits of domain.
    let one = Sparse::new(3, 1, &[5]).expect("build failed");
    assert_eq!(one.d(), 2);
    assert_eq!(one.select(0), 5);
    assert_eq!(one.rank(5), 0);
    assert_eq!(one.rank(6), 1);
    // 36 * n <= 25 * 2^(b - d): for b = 10, n = 100 the largest d is 2.
    let xs: Vec<u64> = (0..100u64).map(|i| i * 10).collect();
    let t = Sparse::new(10, 100, &xs).expect("build failed");
    assert_eq!(t.d(), 2);
    assert_eq!(t.hi().count(), 257);
    assert_eq!(t.hi().size(), 100 + 256 + 1);
}

#[test]
fn sparse_refuses_bad_input() {
    assert!(matches!(Sparse::new(64, 1, &[1]), Err(BuildError::WidthTooLarge)));
    assert!(matches!(Sparse::new(8, 2, &[1]), Err(BuildError::CountMismatch)));
    assert!(matches!(Sparse::new(8, 2, &[2, 1]), Err(BuildError::NotIncreasing)));
    assert!(matches!(Sparse::new(8, 2, &[7, 7]), Err(BuildError::NotIncreasing)));
    assert!(matches!(Sparse::new(8, 2, &[7, 256]), Err(BuildError::OutOfDomain)));
    assert!(Sparse::new(8, 2, &[7, 255]).is_ok());
}

#[test]
fn sparse_agrees_with_sorted() {
    let b: usize = 12;
    let n: usize = 200;
    let xs = make_set(b, n);
    let s = Sparse::new(b, n, &xs).expect("build failed");
    let o = Sorted::new(&xs);
    for v in 0..=(1u64 << b) {
        assert_eq!(s.rank(v), o.rank(v));
    }
    for i in 0..n {
        assert_eq!(s.select(i), o.select(i));
    }
}

#[test]
fn sparse_select_0_duality() {
    let b: usize = 10;
    let n: usize = 100;
    let xs = make_set(b, n);
    let s = Sparse::new(b, n, &xs).expect("build failed");
    let zeros = (1usize << b) - n;
    for j in 0..zeros {
        let v = s.select_0(j);
        assert_eq!(s.rank_0(v), j);
        assert!(!s.contains(v));
    }
    for v in 0..(1u64 << b) {
        assert_eq!(s.rank_0(v) + s.rank_1(v), v as usize);
        if s.contains(v) {
            assert_eq!(s.select(s.rank(v)), v);
        }
    }
}

#[test]
fn sparse_round_trip() {
    let b: usize = 50;
    let m = (1u64 << b) - 1;
    let mut rng = MiniRng::new(0x0123_4567_89ab_cdefu64);
    let mut xs: Vec<u64> = (0..5000).map(|_| (rng.rnd() ^ (rng.rnd() >> 31)) & m).collect();
    xs.sort();
    xs.dedup();
    let n = xs.len();
    let s = Sparse::new(b, n, &xs).expect("build failed");
    let mut bytes: Vec<u8> = Vec::new();
    s.save(&mut bytes);
    let mut source = Source::new(&bytes);
    let t = Sparse::load(&mut source).expect("load failed");
    assert_eq!(source.remaining(), 0);
    assert_eq!(t.b(), b);
    assert_eq!(t.n(), n);
    assert_eq!(t.d(), s.d());
    for i in 0..n {
        assert_eq!(t.rank(xs[i]), i);
        assert_eq!(t.select(i), xs[i]);
    }
    assert_eq!(t.access_and_rank(xs[n - 1]), (n - 1, true));
    assert_eq!(t.access_and_rank(xs[n - 1] + 1), (n, false));
    for v in [0u64, 1, 1 << 20, (1 << 50) - 1, 1 << 50, u64::MAX - 1] {
        assert_eq!(t.rank(v), s.rank(v));
    }
}

#[test]
fn sparse_bytes_layout() {
    let s = Sparse::new(5, 3, &[3, 9, 25]).expect("build failed");
    let mut bytes: Vec<u8> = Vec::new();
    s.save(&mut bytes);
    let mut expected: Vec<u8> = vec![
        5, 0, 0, 0, 0, 0, 0, 0, 3, 0, 0, 0, 0, 0, 0, 0, 2, 0, 0, 0, 0, 0, 0, 0,
    ];
    s.hi().save(&mut expected);
    s.lo().save(&mut expected);
    assert_eq!(bytes, expected);
    // The high parts 0, 2, 6 in unary: 1 0 11 0 1111 0 11 and the last one-bit.
    assert_eq!(&bytes[24..32], &[12, 0, 0, 0, 0, 0, 0, 0]);
    assert_eq!(&bytes[40..48], &[0b1101_1110_1101u64 as u8, 0b1101, 0, 0, 0, 0, 0, 0]);
}

#[test]
fn sparse_load_refuses() {
    let s = Sparse::new(5, 3, &[3, 9, 25]).expect("build failed");
    let mut bytes: Vec<u8> = Vec::new();
    s.save(&mut bytes);
    for cut in 0..bytes.len() {
        assert!(matches!(
            Sparse::load(&mut Source::new(&bytes[..cut])),
            Err(LoadError::ShortRead)
        ));
    }
    let at_lo = bytes.len() - (8 + 8 + 3);
    // A width of the domain above 63.
    let mut wide = bytes.clone();
    wide[0] = 64;
    assert!(matches!(Sparse::load(&mut Source::new(&wide)), Err(LoadError::Inconsistent)));
    // A count that is not the number of zero-bits.
    let mut count = bytes.clone();
    count[8] = 4;
    assert!(matches!(Sparse::load(&mut Source::new(&count)), Err(LoadError::Inconsistent)));
    // A width of the low parts that the sizes do not fit.
    let mut low = bytes.clone();
    low[16] = 3;
    assert!(matches!(Sparse::load(&mut Source::new(&low)), Err(LoadError::Inconsistent)));
    // A low part of more than two bits.
    let mut part = bytes.clone();
    part[at_lo + 16] = 4;
    assert!(matches!(Sparse::load(&mut Source::new(&part)), Err(LoadError::Inconsistent)));
    // An unknown width tag of the low parts.
    let mut tag = bytes.clone();
    tag[at_lo] = 9;
    assert!(matches!(Sparse::load(&mut Source::new(&tag)), Err(LoadError::UnknownWidth(9))));
    // A bitmap whose rank index is wrong.
    let mut index = bytes.clone();
    index[24 + 8 + 16 + 8 + 4] = 7;
    assert!(matches!(Sparse::load(&mut Source::new(&index)), Err(LoadError::Inconsistent)));
    assert!(Sparse::load(&mut Source::new(&bytes)).is_ok());
}

#[test]
fn sparse_load_refuses_elements_out_of_order() {
    // Two elements in one bucket, 5 and 6 of 4 bits with 2 low bits, with
    // their low parts exchanged.
    let s = Sparse::new(4, 2, &[5, 6]).expect("build failed");
    assert_eq!(s.d(), 2);
    let mut bytes: Vec<u8> = Vec::new();
    s.save(&mut bytes);
    let n = bytes.len();
    assert_eq!(&bytes[n - 2..], &[1, 2]);
    bytes[n - 2] = 2;
    bytes[n - 1] = 1;
    assert!(matches!(Sparse::load(&mut Source::new(&bytes)), Err(LoadError::Inconsistent)));
    bytes[n - 1] = 2;
    assert!(matches!(Sparse::load(&mut Source::new(&bytes)), Err(LoadError::Inconsistent)));
    bytes[n - 2] = 0;
    let t = Sparse::load(&mut Source::new(&bytes)).expect("load failed");
    assert_eq!(t.select(0), 4);
    assert_eq!(t.select(1), 6);
    assert!(t.is_valid());
}
