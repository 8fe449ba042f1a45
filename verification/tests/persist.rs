use ransel::error::LoadError;
use ransel::persist::load_u64;
use ransel::persist::load_usize;
use ransel::persist::load_vec_u16;
use ransel::persist::load_vec_u32;
use ransel::persist::load_vec_u64;
use ransel::persist::load_vec_u8;
use ransel::persist::save_vec;
use ransel::persist::Scalar;
use ransel::persist::Source;

#[test]
fn test_vec_u8() {
    let xs: Vec<u8> = vec![23, 56, 129, 230, 255];

    let mut buf: Vec<u8> = Vec::new();

    save_vec(&mut buf, &xs);

    let bytes = buf;

    let mut cursor = Source::new(&bytes);

    let ys: Vec<u8> = load_vec_u8(&mut cursor).expect("load_vec failed");

    assert_eq!(xs, ys);
}

#[test]
fn test_vec_u16() {
    let xs: Vec<u16> = vec![
        0xb3c4, 0x008a, 0x9b9f, 0x0a73, 0x26e1, 0x1b9c, 0x0c88, 0x8871, 0xdb2d, 0x8f4b,
    ];

    let mut buf: Vec<u8> = Vec::new();

    save_vec(&mut buf, &xs);

    let bytes = buf;

    let mut cursor = Source::new(&bytes);

    let ys: Vec<u16> = load_vec_u16(&mut cursor).expect("load_vec failed");

    assert_eq!(xs, ys);
}

#[test]
fn vec_bytes_are_little_endian() {
    let mut buf: Vec<u8> = Vec::new();
    save_vec(&mut buf, &[0x0102u16, 0xfffe]);
    assert_eq!(buf, vec![2, 0, 0, 0, 0, 0, 0, 0, 0x02, 0x01, 0xfe, 0xff]);
    let mut buf: Vec<u8> = Vec::new();
    save_vec(&mut buf, &[0x01020304u32]);
    assert_eq!(buf, vec![1, 0, 0, 0, 0, 0, 0, 0, 4, 3, 2, 1]);
    let mut buf: Vec<u8> = Vec::new();
    save_vec(&mut buf, &[0x0102030405060708u64]);
    assert_eq!(buf, vec![1, 0, 0, 0, 0, 0, 0, 0, 8, 7, 6, 5, 4, 3, 2, 1]);
    let mut buf: Vec<u8> = Vec::new();
    save_vec(&mut buf, &[7u8, 9]);
    assert_eq!(buf, vec![2, 0, 0, 0, 0, 0, 0, 0, 7, 9]);
    let mut buf: Vec<u8> = Vec::new();
    save_vec(&mut buf, &[258usize]);
    assert_eq!(buf, vec![1, 0, 0, 0, 0, 0, 0, 0, 2, 1, 0, 0, 0, 0, 0, 0]);
    let mut buf: Vec<u8> = vec![0xaa];
    0x1122u16.put(&mut buf);
    0x33u8.put(&mut buf);
    assert_eq!(buf, vec![0xaa, 0x22, 0x11, 0x33]);
}

#[test]
fn numbers_are_read_in_order() {
    let bytes: Vec<u8> = vec![1, 2, 0, 0, 0, 0, 0, 0, 0xff, 0, 0, 0, 0, 0, 0, 0x80, 5];
    let mut source = Source::new(&bytes);
    assert_eq!(source.remaining(), 17);
    assert_eq!(load_u64(&mut source), Ok(0x0201));
    assert_eq!(load_u64(&mut source), Ok(0x8000_0000_0000_00ff));
    assert_eq!(source.remaining(), 1);
    assert_eq!(load_u64(&mut source), Err(LoadError::ShortRead));
    assert_eq!(source.remaining(), 1);
    assert_eq!(source.take(1).expect("a byte is left"), &[5u8][..]);
    assert!(matches!(source.take(1), Err(LoadError::ShortRead)));
    let mut again = Source::new(&bytes);
    assert_eq!(load_usize(&mut again), Ok(0x0201));
}

#[test]
fn vectors_round_trip_with_bytes_behind() {
    let a: Vec<u32> = vec![0, 1, 0xffff_ffff, 0x8000_0000];
    let b: Vec<u64> = vec![u64::MAX, 0, 42];
    let c: Vec<u8> = vec![];
    let mut buf: Vec<u8> = Vec::new();
    save_vec(&mut buf, &a);
    save_vec(&mut buf, &b);
    save_vec(&mut buf, &c);
    buf.push(99);
    let mut source = Source::new(&buf);
    assert_eq!(load_vec_u32(&mut source), Ok(a));
    assert_eq!(load_vec_u64(&mut source), Ok(b));
    assert_eq!(load_vec_u8(&mut source), Ok(c));
    assert_eq!(source.remaining(), 1);
}

#[test]
fn short_vectors_are_refused() {
    let mut buf: Vec<u8> = Vec::new();
    save_vec(&mut buf, &[1u32, 2, 3]);
    for cut in 0..buf.len() {
        let mut source = Source::new(&buf[..cut]);
        assert_eq!(load_vec_u32(&mut source), Err(LoadError::ShortRead));
    }
    // A length that no memory holds is a short read, not an allocation.
    let huge: Vec<u8> = vec![0xff; 8];
    assert_eq!(load_vec_u64(&mut Source::new(&huge)), Err(LoadError::ShortRead));
    assert_eq!(load_vec_u8(&mut Source::new(&huge)), Err(LoadError::ShortRead));
    assert_eq!(load_vec_u16(&mut Source::new(&huge)), Err(LoadError::ShortRead));
}
