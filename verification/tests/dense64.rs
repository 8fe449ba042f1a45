use ransel::dense64::lower_bound;
use ransel::dense64::select_from_rank;
use ransel::dense64::Dense64;
use ransel::error::BuildError;
use ransel::error::LoadError;
use ransel::persist::Persistent;
use ransel::persist::Source;
use ransel::rank::Rank;
use ransel::select::Select;
use ransel::select::Select0;
use ransel::set::ImpliedSet;

struct MiniRng {
    x: u64,
}

impl MiniRng {
    fn new(seed: u64) -> MiniRng {
        MiniRng { x: seed }
    }

    fn rnd(&mut self) -> u64 {
        self.x = self.x.wrapping_mul(2862933555777941757u64);
        self.x = self.x.wrapping_add(3037000493u64);
        self.x
    }
}

fn random_bits(n: usize, k: usize) -> (Vec<u64>, Vec<u64>) {
    let m = n * 64;
    let mut bits = Vec::new();
    let mut words = Vec::new();
    words.resize(n, 0);
    let mut rng = MiniRng::new(0xfbdb8b2bcc6674b8u64);
    for _i in 0..k {
        let x: u64 = (rng.rnd() ^ (rng.rnd() << 32) ^ (rng.rnd() >> 32)) % (m as u64);
        bits.push(x);
        let w = x / 64;
        let b = x & 63;
        words[w as usize] |= 1 << b;
    }
    bits.sort();
    (bits, words)
}

#[test]
fn dense64_test_rank_1() {
    let n = 1024;
    let m = n * 64;
    let k = 100;
    let (bits, words) = random_bits(n, k);
    println!("{:?}", bits);

    let r = Dense64::new(m as u64, &words).expect("build failed");
    for i in 0..k {
        let x = bits[i];
        println!("{} {}", i, x);
        let j = r.rank(x);
        assert_eq!(j, i);
        assert!(r.contains(x));
        assert_eq!(r.access_and_rank(x), (i, true));
        assert_eq!(r.access_and_rank(x + 1), (i + 1, false));
    }
    assert_eq!(r.rank(m as u64), k);
}

#[test]
fn test_select_1() {
    let n = 1024;
    let m = n * 64;
    let k = 100;
    let (bits, words) = random_bits(n, k);
    println!("{:?}", bits);

    let r = Dense64::new(m as u64, &words).expect("build failed");
    for i in 0..k {
        assert_eq!(r.select(i), bits[i]);
    }
}

#[test]
fn test_select_2() {
    let m = 1024 * 1024;
    let n = m / 64;
    let k = 65536;
    let (mut bits, words) = random_bits(n, k);
    bits.dedup();

    let r = Dense64::new(m as u64, &words).expect("build failed");
    for i in 0..bits.len() {
        assert_eq!(r.select(i), bits[i]);
    }
}

#[test]
fn test_select_3() {
    let m = 1024 * 1024;
    let n = m / 64;
    let k = 1024;
    let (mut bits, words) = random_bits(n, k);
    bits.dedup();

    let r = Dense64::new(m as u64, &words).expect("build failed");
    for i in 0..bits.len() {
        assert_eq!(r.select(i), bits[i]);
    }
}

#[test]
fn test_select0_1() {
    let words: Vec<u64> = vec![0b100111u64];
    let r = Dense64::new(6, &words).expect("build failed");
    assert_eq!(r.rank_0(0), 0);
    assert_eq!(r.rank_0(1), 0);
    assert_eq!(r.rank_0(2), 0);
    assert_eq!(r.rank_0(3), 0);
    assert_eq!(r.rank_0(4), 1);
    assert_eq!(r.rank_0(5), 2);
    assert_eq!(r.rank_0(6), 2);
    assert_eq!(r.select(0), 0);
    assert_eq!(r.select(1), 1);
    assert_eq!(r.select(2), 2);
    assert_eq!(r.select(3), 5);
    assert_eq!(r.select_0(0), 3);
    assert_eq!(r.select_0(1), 4);
}

#[test]
fn dense64_tiny_ranks() {
    let words: Vec<u64> = vec![0b100111u64];
    let r = Dense64::new(6, &words).expect("build failed");
    assert_eq!(r.size(), 6);
    assert_eq!(r.count(), 4);
    let expected = [0usize, 1, 2, 3, 3, 3, 4];
    for v in 0..7u64 {
        assert_eq!(r.rank(v), expected[v as usize]);
        assert_eq!(r.rank_1(v), expected[v as usize]);
    }
    assert_eq!(r.rank(1000), 4);
    assert_eq!(r.rank_2(1, 5), (1, 3));
    assert!(r.contains(5));
    assert!(!r.contains(4));
}

#[test]
fn dense64_refuses_bad_input() {
    assert!(matches!(Dense64::new(65, &[0u64]), Err(BuildError::SizeExceedsWords)));
    assert!(matches!(Dense64::new(1, &[]), Err(BuildError::SizeExceedsWords)));
    assert!(matches!(Dense64::new(6, &[0b1100111u64]), Err(BuildError::BitsBeyondSize)));
    assert!(matches!(Dense64::new(64, &[1u64, 4u64]), Err(BuildError::BitsBeyondSize)));
    assert!(matches!(Dense64::new(0, &[0u64, 1u64]), Err(BuildError::BitsBeyondSize)));
    assert!(Dense64::new(64, &[u64::MAX, 0]).is_ok());
    assert!(Dense64::new(0, &[]).is_ok());
}

#[test]
fn dense64_empty() {
    let r = Dense64::new(0, &[]).expect("build failed");
    assert_eq!(r.count(), 0);
    assert_eq!(r.size(), 0);
    assert_eq!(r.rank(0), 0);
    assert_eq!(r.rank(17), 0);
    let z = Dense64::new(128, &[0, 0]).expect("build failed");
    assert_eq!(z.count(), 0);
    assert_eq!(z.rank(128), 0);
    assert_eq!(z.select_0(0), 0);
    assert_eq!(z.select_0(127), 127);
}

#[test]
fn dense64_full_words_cross_sample_blocks() {
    // 40 full words hold 2560 set bits: three select samples.
    let words: Vec<u64> = vec![u64::MAX; 40];
    let r = Dense64::new(2560, &words).expect("build failed");
    assert_eq!(r.count(), 2560);
    for i in 0..2560usize {
        assert_eq!(r.select(i), i as u64);
        assert_eq!(r.rank(i as u64), i);
    }
    assert_eq!(r.rank(2560), 2560);
}

#[test]
fn dense64_rank_select_duality() {
    let (mut bits, words) = random_bits(64, 500);
    bits.dedup();
    let r = Dense64::new(64 * 64, &words).expect("build failed");
    assert_eq!(r.count(), bits.len());
    for i in 0..bits.len() {
        let v = r.select(i);
        assert_eq!(r.rank(v), i);
        assert_eq!(r.rank(v + 1), i + 1);
    }
    let zeros = 64 * 64 - bits.len();
    for j in (0..zeros).step_by(37) {
        let v = r.select_0(j);
        assert_eq!(r.rank_0(v), j);
        assert!(!r.contains(v));
    }
    for v in 0..(64 * 64) as u64 {
        assert_eq!(r.rank_0(v) + r.rank_1(v), v as usize);
        assert_eq!(r.contains(v), r.rank(v + 1) == r.rank(v) + 1);
        assert!(r.rank(v) <= r.rank(v + 1));
    }
}

#[test]
fn lower_bound_finds_first_not_below() {
    let xs: Vec<u32> = vec![0, 0, 3, 3, 7, 9];
    assert_eq!(lower_bound(0, &xs), 0);
    assert_eq!(lower_bound(1, &xs), 2);
    assert_eq!(lower_bound(3, &xs), 2);
    assert_eq!(lower_bound(4, &xs), 4);
    assert_eq!(lower_bound(9, &xs), 5);
    assert_eq!(lower_bound(10, &xs), 6);
    assert_eq!(lower_bound(5, &[]), 0);
}

#[test]
fn select_from_rank_walks_the_index() {
    let words: Vec<u64> = vec![0b1010, 0, 0b1, u64::MAX];
    let randex: Vec<u32> = vec![0, 2, 2, 3, 67];
    assert_eq!(select_from_rank(&randex, &words, 0), 1);
    assert_eq!(select_from_rank(&randex, &words, 1), 3);
    assert_eq!(select_from_rank(&randex, &words, 2), 128);
    assert_eq!(select_from_rank(&randex, &words, 3), 192);
    assert_eq!(select_from_rank(&randex, &words, 66), 255);
}

#[test]
fn test_load_and_save_1() {
    let m = 1024 * 1024;
    let n = m / 64;
    let k = 1024;
    let (mut bits, words) = random_bits(n, k);
    bits.dedup();

    let r = Dense64::new(m as u64, &words).expect("build failed");

    let mut buf: Vec<u8> = Vec::new();
    r.save(&mut buf);
    let bytes = buf;
    let mut cursor = Source::new(&bytes);
    let s = Dense64::load(&mut cursor).expect("load failed");

    for i in 0..k {
        let x = bits[i];
        println!("{} {}", i, x);
        let j = s.rank(x);
        assert_eq!(j, i);
        let y = s.select(i);
        assert_eq!(y, x);
    }
}

#[test]
fn dense64_bytes_layout() {
    let r = Dense64::new(70, &[0b1011u64, 0b100000u64]).expect("build failed");
    let mut bytes: Vec<u8> = Vec::new();
    r.save(&mut bytes);
    let expected: Vec<u8> = vec![
        70, 0, 0, 0, 0, 0, 0, 0, // the size
        2, 0, 0, 0, 0, 0, 0, 0, 0b1011, 0, 0, 0, 0, 0, 0, 0, 0b100000, 0, 0, 0, 0, 0, 0, 0, // words
        3, 0, 0, 0, 0, 0, 0, 0, 0, 0, 0, 0, 3, 0, 0, 0, 4, 0, 0, 0, // the rank index
        1, 0, 0, 0, 0, 0, 0, 0, 0, 0, 0, 0, // the select index
    ];
    assert_eq!(bytes, expected);
}

#[test]
fn dense64_load_refuses() {
    let r = Dense64::new(70, &[0b1011u64, 0b100000u64]).expect("build failed");
    let mut bytes: Vec<u8> = Vec::new();
    r.save(&mut bytes);
    for cut in 0..bytes.len() {
        assert!(matches!(
            Dense64::load(&mut Source::new(&bytes[..cut])),
            Err(LoadError::ShortRead)
        ));
    }
    // A size above the bits of the words.
    let mut size = bytes.clone();
    size[0] = 129;
    assert!(matches!(Dense64::load(&mut Source::new(&size)), Err(LoadError::Inconsistent)));
    // A bit behind the size.
    let mut stray = bytes.clone();
    stray[24] = 0b1100000;
    assert!(matches!(Dense64::load(&mut Source::new(&stray)), Err(LoadError::Inconsistent)));
    // A rank index that is not that of the words.
    let mut randex = bytes.clone();
    randex[44] = 2;
    assert!(matches!(Dense64::load(&mut Source::new(&randex)), Err(LoadError::Inconsistent)));
    // A select index that is not that of the words.
    let mut seldex = bytes.clone();
    seldex[60] = 1;
    assert!(matches!(Dense64::load(&mut Source::new(&seldex)), Err(LoadError::Inconsistent)));
    let mut source = Source::new(&bytes);
    let back = Dense64::load(&mut source).expect("load failed");
    assert_eq!(source.remaining(), 0);
    assert_eq!(back.size(), 70);
    assert_eq!(back.count(), 4);
    assert_eq!(back.select(3), 69);
}

#[test]
fn dense64_from_parts() {
    let words: Vec<u64> = vec![0b1011u64, 0b100000u64];
    assert!(Dense64::from_parts(70, words.clone(), vec![0, 3, 4], vec![0]).is_some());
    assert!(Dense64::from_parts(70, words.clone(), vec![0, 3, 5], vec![0]).is_none());
    assert!(Dense64::from_parts(70, words.clone(), vec![0, 3, 4], vec![]).is_none());
    assert!(Dense64::from_parts(70, words.clone(), vec![0, 3], vec![0]).is_none());
    assert!(Dense64::from_parts(200, words, vec![0, 3, 4], vec![0]).is_none());
}

#[test]
fn dense64_refuses_more_ones_than_the_index_counts() {
    // 2^26 full words hold 2^32 set bits, one more than 32 bits count.
    let words: Vec<u64> = vec![u64::MAX; 1 << 26];
    assert!(matches!(Dense64::new(1 << 32, &words), Err(BuildError::IndexOverflow)));
}
