use ransel::error::LoadError;
use ransel::intvec::IntVec;
use ransel::persist::Persistent;
use ransel::persist::Source;

struct MiniRng {
    x: u64,
}

impl MiniRng {
    fn new(seed: u64) -> MiniRng {
        MiniRng { x: seed }
    }

    fn rnd(&mut self) -> u64 {
        self.x = self.x.wrapping_mul(2862933555777941757u64);
        self.x = self.x.wrapping_add(3037000493u64);
        self.x
    }
}

fn random_values(b: usize, n: usize) -> Vec<u64> {
    let mask = if b == 64 { u64::MAX } else { (1u64 << b) - 1 };
    let mut rng = MiniRng::new(0x1234_5678_9abc_def0 + b as u64);
    (0..n).map(|_| (rng.rnd() ^ (rng.rnd() >> 29)) & mask).collect()
}

fn stored_width(v: &IntVec) -> u8 {
    let mut bytes: Vec<u8> = Vec::new();
    v.save(&mut bytes);
    bytes[0]
}

#[test]
fn intvec_push_get() {
    for b in [4usize, 7, 47, 63] {
        let xs = random_values(b, 1000);
        let mut v = IntVec::new(b);
        for x in xs.iter() {
            v.push(*x);
        }
        assert_eq!(v.len(), 1000);
        for i in 0..1000 {
            assert_eq!(v.get(i), xs[i]);
        }
    }
}

#[test]
fn intvec_every_width() {
    for b in 0..=64usize {
        let xs = random_values(b, 50);
        let mut v = IntVec::new(b);
        v.reserve(50);
        assert_eq!(v.len(), 0);
        for x in xs.iter() {
            v.push(*x);
        }
        for i in 0..50 {
            assert_eq!(v.get(i), xs[i]);
        }
        let top = if b == 64 { u64::MAX } else { (1u64 << b) - 1 };
        v.set(17, top);
        v.set(18, 0);
        assert_eq!(v.get(16), xs[16]);
        assert_eq!(v.get(17), top);
        assert_eq!(v.get(18), 0);
        assert_eq!(v.get(19), xs[19]);
        assert_eq!(v.len(), 50);
    }
}

#[test]
fn intvec_storage_widths() {
    let expected = [
        (0usize, 8u8),
        (1, 8),
        (8, 8),
        (9, 16),
        (16, 16),
        (17, 24),
        (24, 24),
        (25, 32),
        (32, 32),
        (33, 48),
        (48, 48),
        (49, 64),
        (64, 64),
    ];
    for (b, width) in expected {
        assert_eq!(stored_width(&IntVec::new(b)), width);
    }
}

#[test]
fn intvec_split_shapes_hold_the_largest_values() {
    let mut v = IntVec::new(24);
    v.push(0xff_ffff);
    v.push(0x01_0000);
    v.push(0x00_ffff);
    assert_eq!(v.get(0), 0xff_ffff);
    assert_eq!(v.get(1), 0x01_0000);
    assert_eq!(v.get(2), 0x00_ffff);
    let mut w = IntVec::new(48);
    w.push(0xffff_ffff_ffff);
    w.push(0x0001_0000_0000);
    w.push(0x0000_ffff_ffff);
    assert_eq!(w.get(0), 0xffff_ffff_ffff);
    assert_eq!(w.get(1), 0x0001_0000_0000);
    assert_eq!(w.get(2), 0x0000_ffff_ffff);
}

#[test]
fn intvec_round_trip() {
    for b in [3usize, 12, 20, 31, 40, 64] {
        let xs = random_values(b, 100);
        let mut v = IntVec::new(b);
        for x in xs.iter() {
            v.push(*x);
        }
        let mut bytes: Vec<u8> = vec![1, 2, 3];
        v.save(&mut bytes);
        bytes.extend_from_slice(&[9, 9]);
        let mut source = Source::new(&bytes[3..]);
        let w = IntVec::load(&mut source).expect("load failed");
        assert_eq!(source.remaining(), 2);
        assert_eq!(w.len(), 100);
        for i in 0..100 {
            assert_eq!(w.get(i), xs[i]);
        }
        assert_eq!(stored_width(&w), stored_width(&v));
    }
}

#[test]
fn intvec_bytes_layout() {
    let mut v = IntVec::new(20);
    v.push(0x0a_bcde);
    v.push(0x01_0203);
    let mut bytes: Vec<u8> = Vec::new();
    v.save(&mut bytes);
    let expected: Vec<u8> = vec![
        24, 0, 0, 0, 0, 0, 0, 0, // the width tag
        2, 0, 0, 0, 0, 0, 0, 0, 0x0a, 0x01, // the high bytes
        2, 0, 0, 0, 0, 0, 0, 0, 0xde, 0xbc, 0x03, 0x02, // the low halves
    ];
    assert_eq!(bytes, expected);
}

#[test]
fn intvec_load_refuses() {
    let mut v = IntVec::new(20);
    v.push(5);
    v.push(6);
    let mut bytes: Vec<u8> = Vec::new();
    v.save(&mut bytes);
    for cut in 0..bytes.len() {
        assert!(matches!(
            IntVec::load(&mut Source::new(&bytes[..cut])),
            Err(LoadError::ShortRead)
        ));
    }
    let mut tag = bytes.clone();
    tag[0] = 12;
    assert!(matches!(IntVec::load(&mut Source::new(&tag)), Err(LoadError::UnknownWidth(12))));
    let mut tag = bytes.clone();
    tag[7] = 1;
    assert!(matches!(
        IntVec::load(&mut Source::new(&tag)),
        Err(LoadError::UnknownWidth(0x0100_0000_0000_0018))
    ));
    // Two high bytes and one low half.
    let uneven: Vec<u8> = vec![
        24, 0, 0, 0, 0, 0, 0, 0, 2, 0, 0, 0, 0, 0, 0, 0, 1, 2, 1, 0, 0, 0, 0, 0, 0, 0, 3, 4,
    ];
    assert!(matches!(IntVec::load(&mut Source::new(&uneven)), Err(LoadError::Inconsistent)));
    assert!(IntVec::load(&mut Source::new(&bytes)).is_ok());
}

#[test]
fn intvec_load_of_a_split_shape() {
    // The tag 48, the high halves [0x4000] and the low words [1].
    let bytes: Vec<u8> = vec![
        48, 0, 0, 0, 0, 0, 0, 0, 1, 0, 0, 0, 0, 0, 0, 0, 0x00, 0x40, 1, 0, 0, 0, 0, 0, 0, 0, 1,
        0, 0, 0,
    ];
    let mut source = Source::new(&bytes);
    let v = IntVec::load(&mut source).expect("load failed");
    assert_eq!(source.remaining(), 0);
    assert_eq!(v.len(), 1);
    assert_eq!(v.get(0), 0x4000_0000_0001);
    let mut w = IntVec::new(24);
    w.push(0xABCDEF);
    let mut written: Vec<u8> = Vec::new();
    w.save(&mut written);
    let expected: Vec<u8> = vec![
        24, 0, 0, 0, 0, 0, 0, 0, 1, 0, 0, 0, 0, 0, 0, 0, 0xAB, 1, 0, 0, 0, 0, 0, 0, 0, 0xEF, 0xCD,
    ];
    assert_eq!(written, expected);
}
