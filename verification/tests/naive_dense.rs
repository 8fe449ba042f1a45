use ransel::bitvec::BitVec;
use ransel::naive_dense::NaiveDense;
use ransel::rank::Rank;
use ransel::select::Select;
use ransel::set::ImpliedSet;

fn hex_bits(xs: &[u64]) -> BitVec {
    let mut res = BitVec::new();
    for x in xs.iter() {
        let mut x = *x;
        for _ in 0..64 {
            res.push((x & 1) == 1);
            x >>= 1;
        }
    }
    res
}

#[test]
fn naive_dense_test_rank_1() {
    let dat = [
        0x634b9340deec8469,
        0x84eb72e372e6a42f,
        0x887223eead889e46,
        0x60e42e378e9549c8,
        0x86aaf4f00e8c7b16,
        0x0ece3ae2b0fc440c,
        0xcb1e4df954f381be,
        0xb90b639ce82a8329,
    ];
    let bits = hex_bits(&dat);
    let nd = NaiveDense::new(bits.clone());
    assert_eq!(nd.count(), 248);
    assert_eq!(nd.size(), 512);

    let mut t = 0;
    let mut ones = Vec::new();
    for i in 0..512 {
        assert_eq!(nd.rank(i), t);
        if bits.get(i as usize) {
            t += 1;
            ones.push(i);
        }
    }
    assert_eq!(ones.len(), 248);
    for i in 0..248 {
        assert_eq!(nd.select(i), ones[i]);
    }
}

#[test]
fn naive_dense_rank_2_is_two_ranks() {
    let dat = [0x634b9340deec8469, 0x84eb72e372e6a42f, 0x887223eead889e46];
    let bits = hex_bits(&dat);
    let nd = NaiveDense::new(bits.clone());
    for v1 in (0..200u64).step_by(7) {
        for v2 in ((v1 + 1)..220u64).step_by(11) {
            assert_eq!(nd.rank_2(v1, v2), (nd.rank(v1), nd.rank(v2)));
        }
    }
    assert_eq!(nd.rank_2(191, 192), (nd.rank(191), nd.count()));
    assert_eq!(nd.rank_2(500, 501), (nd.count(), nd.count()));
}

#[test]
fn bitvec_push_get_set() {
    let mut v = BitVec::new();
    assert_eq!(v.len(), 0);
    for i in 0..130usize {
        v.push(i % 3 == 0);
    }
    assert_eq!(v.len(), 130);
    assert_eq!(v.as_words().len(), 3);
    for i in 0..130usize {
        assert_eq!(v.get(i), i % 3 == 0);
    }
    v.set(64, false);
    v.set(65, true);
    assert_eq!(v.get(63), true);
    assert_eq!(v.get(64), false);
    assert_eq!(v.get(65), true);
    assert_eq!(v.get(66), true);
    assert_eq!(v.as_words()[2], 0b10);
    let w = v.clone();
    assert_eq!(w.len(), 130);
    assert_eq!(w.as_words(), v.as_words());
}
