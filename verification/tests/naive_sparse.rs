use ransel::error::LoadError;
use ransel::naive_sparse::NaiveSparse;
use ransel::persist::Persistent;
use ransel::persist::Source;
use ransel::rank::Rank;
use ransel::select::Select;
use ransel::select::Select0;
use ransel::set::ImpliedSet;

struct MiniRng {
    x: u64,
}

impl MiniRng {
    fn new(seed: u64) -> MiniRng {
        MiniRng { x: seed }
    }

    fn rnd(&mut self) -> u64 {
        self.x = self.x.wrapping_mul(2862933555777941757u64);
        self.x = self.x.wrapping_add(3037000493u64);
        self.x
    }
}

fn random_elements(b: usize, k: usize) -> Vec<u64> {
    let m: u64 = (1 << b) - 1;
    let mut xs: Vec<u64> = Vec::new();
    let mut rng = MiniRng::new(0xfbdb8b2bcc6674b9u64);
    for _i in 0..k {
        let x: u64 = (rng.rnd() ^ (rng.rnd() << 32) ^ (rng.rnd() >> 32)) & m;
        xs.push(x);
    }
    xs.sort();
    xs.dedup();
    xs
}

#[test]
fn naive_sparse_test_rank_1() {
    let b: usize = 20;
    let m: u64 = (1 << b) - 1;
    let k: usize = 1024;
    let mut xs: Vec<u64> = Vec::new();
    let mut rng = MiniRng::new(0xfbdb8b2bcc6674b9u64);
    for _i in 0..k {
        let x: u64 = (rng.rnd() ^ (rng.rnd() << 32) ^ (rng.rnd() >> 32)) & m;
        xs.push(x);
    }
    xs.sort();
    xs.dedup();
    println!("xs={:?}", xs);

    let r = NaiveSparse::new(b, &xs);
    for i in 0..xs.len() {
        let x = xs[i];
        println!("xs[i]={}", x);
        let j = r.rank(x);
        assert_eq!(j, i);
        assert!(r.contains(x));
        assert_eq!(r.access_and_rank(x), (i, true));
    }
}

#[test]
fn naive_sparse_small() {
    let xs: Vec<u64> = vec![0, 1, 2, 5, 1023, 1024, 2047];
    let r = NaiveSparse::new(11, &xs);
    assert_eq!(r.size(), 2048);
    assert_eq!(r.count(), 7);
    assert_eq!(r.rank(0), 0);
    assert_eq!(r.rank(3), 3);
    assert_eq!(r.rank(5), 3);
    assert_eq!(r.rank(6), 4);
    assert_eq!(r.rank(1024), 5);
    assert_eq!(r.rank(2047), 6);
    assert_eq!(r.rank(2048), 7);
    assert_eq!(r.rank(1 << 40), 7);
    assert_eq!(r.select(3), 5);
    assert_eq!(r.select(6), 2047);
    assert_eq!(r.select_0(0), 3);
    assert_eq!(r.select_0(1), 4);
    assert_eq!(r.select_0(2), 6);
    let e = NaiveSparse::new(12, &[]);
    assert_eq!(e.count(), 0);
    assert_eq!(e.rank(77), 0);
}

#[test]
fn naive_sparse_round_trip() {
    let xs = random_elements(20, 300);
    let r = NaiveSparse::new(20, &xs);
    let mut bytes: Vec<u8> = Vec::new();
    r.save(&mut bytes);
    assert_eq!(bytes.len(), 8 + (8 + 8 * xs.len()) + (8 + 8 * 1025));
    bytes.push(0xee);
    let mut source = Source::new(&bytes);
    let s = NaiveSparse::load(&mut source).expect("load failed");
    assert_eq!(source.remaining(), 1);
    assert_eq!(s.size(), r.size());
    assert_eq!(s.count(), r.count());
    for i in 0..xs.len() {
        assert_eq!(s.rank(xs[i]), i);
        assert_eq!(s.select(i), xs[i]);
    }
}

#[test]
fn naive_sparse_load_refuses() {
    let xs: Vec<u64> = vec![1, 2, 3000];
    let r = NaiveSparse::new(12, &xs);
    let mut bytes: Vec<u8> = Vec::new();
    r.save(&mut bytes);
    for cut in [0usize, 7, 8, 20, 40, 41, bytes.len() - 1] {
        let mut source = Source::new(&bytes[..cut]);
        assert!(matches!(NaiveSparse::load(&mut source), Err(LoadError::ShortRead)));
    }
    // A width outside 11..=63.
    let mut wide = bytes.clone();
    wide[0] = 64;
    assert!(matches!(
        NaiveSparse::load(&mut Source::new(&wide)),
        Err(LoadError::Inconsistent)
    ));
    // Elements out of order.
    let mut swapped = bytes.clone();
    swapped[16] = 9;
    assert!(matches!(
        NaiveSparse::load(&mut Source::new(&swapped)),
        Err(LoadError::Inconsistent)
    ));
    // A table of contents that is not that of the elements.
    let mut toc = bytes.clone();
    let at = 8 + 8 + 8 * 3 + 8;
    toc[at] = 1;
    assert!(matches!(NaiveSparse::load(&mut Source::new(&toc)), Err(LoadError::Inconsistent)));
    assert!(NaiveSparse::load(&mut Source::new(&bytes)).is_ok());
}
