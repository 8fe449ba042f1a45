use ransel::bitvec::BitVec;
use ransel::dense64::Dense64;
use ransel::naive_dense::NaiveDense;
use ransel::parens::BalencedPArens;

// An opening parenthesis is a set bit: "(()(()))" from position 0.
fn tree() -> Dense64 {
    Dense64::new(8, &[0b00011011u64]).expect("build failed")
}

#[test]
fn parens_valid() {
    assert!(tree().valid());
    // "(()" has more opening than closing ones.
    assert!(!Dense64::new(3, &[0b011u64]).expect("build failed").valid());
    // "())(" closes more than it has opened.
    assert!(!Dense64::new(4, &[0b1001u64]).expect("build failed").valid());
    // ")(" is balanced in count only.
    assert!(!Dense64::new(2, &[0b10u64]).expect("build failed").valid());
    assert!(Dense64::new(0, &[]).expect("build failed").valid());
    assert!(Dense64::new(2, &[0b01u64]).expect("build failed").valid());
}

#[test]
fn parens_excess() {
    let t = tree();
    let expected = [0u64, 1, 2, 1, 2, 3, 2, 1, 0];
    for v in 0..=8u64 {
        assert_eq!(t.excess(v), expected[v as usize]);
    }
}

#[test]
fn parens_searches() {
    let t = tree();
    // Excess at 1 is 1; the first later position with excess 0 is 8, which
    // is outside the positions searched.
    assert_eq!(t.fwd_search(1, -1), None);
    assert_eq!(t.fwd_search(2, -1), Some(3));
    assert_eq!(t.fwd_search(0, 1), Some(1));
    assert_eq!(t.fwd_search(0, 3), Some(5));
    assert_eq!(t.fwd_search(0, 4), None);
    assert_eq!(t.fwd_search(0, -1), None);
    assert_eq!(t.bwd_search(5, 0), None);
    assert_eq!(t.bwd_search(5, -2), Some(3));
    assert_eq!(t.bwd_search(5, -1), Some(4));
    assert_eq!(t.bwd_search(8, 0), Some(0));
    assert_eq!(t.bwd_search(3, -5), None);
    assert_eq!(t.bwd_search(0, 0), None);
}

#[test]
fn parens_navigation() {
    let t = tree();
    assert_eq!(t.close(2), Some(3));
    assert_eq!(t.close(5), Some(6));
    assert_eq!(t.close(4), Some(7));
    assert_eq!(t.open(3), Some(2));
    assert_eq!(t.open(7), Some(4));
    assert_eq!(t.enclose(5), Some(4));
    assert_eq!(t.parent(5), Some(4));
    assert_eq!(t.parent(3), None);
    assert_eq!(t.enclose(1), None);
    assert_eq!(t.first_child(0), Some(1));
    assert_eq!(t.first_child(3), Some(4));
}

#[test]
fn parens_over_a_bit_vector() {
    let mut bits = BitVec::new();
    for open in [true, true, false, true, false, false] {
        bits.push(open);
    }
    let t = NaiveDense::new(bits);
    assert!(t.valid());
    assert_eq!(t.excess(2), 2);
    assert_eq!(t.close(2), Some(3));
    assert_eq!(t.fwd_search(1, 0), Some(3));
}
