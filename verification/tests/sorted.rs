use ransel::rank::Rank;
use ransel::select::Select;
use ransel::select::Select0;
use ransel::set::ImpliedSet;
use ransel::sorted::Sorted;

struct MiniRng {
    x: u64,
}

impl MiniRng {
    fn new(seed: u64) -> MiniRng {
        MiniRng { x: seed }
    }

    fn rnd(&mut self) -> u64 {
        self.x = self.x.wrapping_mul(2862933555777941757u64);
        self.x = self.x.wrapping_add(3037000493u64);
        self.x
    }
}

#[test]
fn sorted_test_rank_1() {
    let b: usize = 20;
    let m: u64 = (1 << b) - 1;
    let k: usize = 1024;
    let mut xs: Vec<u64> = Vec::new();
    let mut rng = MiniRng::new(0xfbdb8b2bcc6674b9u64);
    for _i in 0..k {
        let x: u64 = (rng.rnd() ^ (rng.rnd() << 32) ^ (rng.rnd() >> 32)) & m;
        xs.push(x);
    }
    xs.sort();
    xs.dedup();
    println!("xs={:?}", xs);

    let r = Sorted::new(&xs);
    for i in 0..xs.len() {
        let x = xs[i];
        println!("xs[i]={}", x);
        let j = r.rank(x);
        assert_eq!(j, i);
        assert!(r.contains(x));
        assert_eq!(r.access_and_rank(x), (i, true));
    }
}

#[test]
fn sorted_small() {
    let r = Sorted::new(&[2, 3, 7]);
    assert_eq!(r.count(), 3);
    assert_eq!(r.size(), 8);
    assert_eq!(r.rank(0), 0);
    assert_eq!(r.rank(2), 0);
    assert_eq!(r.rank(3), 1);
    assert_eq!(r.rank(7), 2);
    assert_eq!(r.rank(8), 3);
    assert_eq!(r.rank(100), 3);
    assert_eq!(r.select(0), 2);
    assert_eq!(r.select(2), 7);
    assert_eq!(r.select_0(0), 0);
    assert_eq!(r.select_0(2), 4);
    assert_eq!(r.select_0(4), 6);
    assert_eq!(r.rank_0(7), 5);
    let e = Sorted::new(&[]);
    assert_eq!(e.count(), 0);
    assert_eq!(e.size(), 0);
    assert_eq!(e.rank(5), 0);
}
