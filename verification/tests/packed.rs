use ransel::intvec::IntVec;
use ransel::packed::PackedVec;

struct MiniRng {
    x: u64,
}

impl MiniRng {
    fn new(seed: u64) -> MiniRng {
        MiniRng { x: seed }
    }

    fn rnd(&mut self) -> u64 {
        self.x = self.x.wrapping_mul(2862933555777941757u64);
        self.x = self.x.wrapping_add(3037000493u64);
        self.x
    }
}

fn random_values(b: usize, n: usize) -> Vec<u64> {
    let mask = if b == 64 { u64::MAX } else { (1u64 << b) - 1 };
    let mut rng = MiniRng::new(0x0fed_cba9_8765_4321 + b as u64);
    (0..n).map(|_| (rng.rnd() ^ (rng.rnd() >> 29)) & mask).collect()
}

#[test]
fn packed_push_get() {
    for b in [4usize, 7, 47, 63] {
        let xs = random_values(b, 1000);
        let mut v = PackedVec::new(b);
        for x in xs.iter() {
            v.push(*x);
        }
        assert_eq!(v.len(), 1000);
        for i in 0..1000 {
            assert_eq!(v.get(i), xs[i]);
        }
    }
}

#[test]
fn packed_every_width() {
    for b in 0..=64usize {
        let xs = random_values(b, 130);
        let mut v = PackedVec::new(b);
        for x in xs.iter() {
            v.push(*x);
        }
        for i in 0..130 {
            assert_eq!(v.get(i), xs[i]);
        }
        let top = if b == 64 { u64::MAX } else { (1u64 << b) - 1 };
        for i in (0..130).step_by(3) {
            v.set(i, top);
        }
        for i in (1..130).step_by(3) {
            v.set(i, 0);
        }
        for i in 0..130 {
            let expected = match i % 3 {
                0 => top,
                1 => 0,
                _ => xs[i],
            };
            assert_eq!(v.get(i), expected);
        }
        assert_eq!(v.len(), 130);
    }
}

#[test]
fn packed_entries_across_words() {
    // Entries of 7 bits: entry 9 takes the bits 63 to 69.
    let mut v = PackedVec::new(7);
    for i in 0..20u64 {
        v.push(i + 100);
    }
    assert_eq!(v.get(9), 109);
    v.set(9, 0b1010101);
    assert_eq!(v.get(8), 108);
    assert_eq!(v.get(9), 0b1010101);
    assert_eq!(v.get(10), 110);
    v.set(9, 0);
    assert_eq!(v.get(8), 108);
    assert_eq!(v.get(9), 0);
    assert_eq!(v.get(10), 110);
}

#[test]
fn packed_agrees_with_bucketed() {
    for b in [1usize, 8, 13, 24, 33, 48, 64] {
        let xs = random_values(b, 200);
        let mut p = PackedVec::new(b);
        let mut q = IntVec::new(b);
        for x in xs.iter() {
            p.push(*x);
            q.push(*x);
        }
        for i in (0..200).step_by(7) {
            p.set(i, xs[199 - i]);
            q.set(i, xs[199 - i]);
        }
        assert_eq!(p.len(), q.len());
        for i in 0..200 {
            assert_eq!(p.get(i), q.get(i));
        }
    }
}
