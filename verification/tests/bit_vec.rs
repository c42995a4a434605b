use tsz::bit_vec::{AppendOnlyBitVec, BitVec};

#[test]
fn test_get_set() {
    let mut vec = BitVec::new();
    vec.set_bit(0, true);
    vec.set_bit(5, true);
    vec.set_bit(10, true);
    assert_eq!(true, vec.get_bit(0));
    assert_eq!(true, vec.get_bit(5));
    assert_eq!(true, vec.get_bit(10));
    assert_eq!(false, vec.get_bit(32));
    vec.set_bit(10, false);
    assert_eq!(false, vec.get_bit(10));
}

#[test]
fn test_set_block() {
    let mut vec = BitVec::new();
    vec.set_block(4, !0);
    assert_eq!(false, vec.get_bit(3));
    assert_eq!(true, vec.get_bit(4));
    assert_eq!(true, vec.get_bit(67));
    assert_eq!(false, vec.get_bit(68));
}

#[test]
fn test_get_block() {
    let mut vec = BitVec::new();
    vec.set_block(0, !0);
    assert_eq!(!0, vec.get_block(0));
    vec.set_block(67, !0);
    assert_eq!(!0, vec.get_block(67));
    vec.set_block(256, !0);
    assert_eq!(!0, vec.get_block(256));
    assert_eq!(!0u64 << 2, vec.get_block(258));
}

#[test]
fn test_clear() {
    let mut vec = BitVec::new();
    vec.set_block(0, !0);
    vec.clear();
    assert_eq!(0, vec.get_block(0));
}

#[test]
fn test_append() {
    let mut vec = AppendOnlyBitVec::new();
    vec.append(1, 0);
    assert_eq!(false, vec.get_bit(0));
    vec.append(0, 1);
    assert_eq!(false, vec.get_bit(0));
    vec.append(1, 1);
    assert_eq!(false, vec.get_bit(0));
    assert_eq!(true, vec.get_bit(1));
    vec.append(1, 0); // buffer
    vec.append(64, !0);
    assert_eq!(!0 >> 1, vec.get_block(2));
    assert_eq!(!0, vec.get_block(3));
    vec.append(3, 3);
    assert_eq!(false, vec.get_bit(68));
    assert_eq!(true, vec.get_bit(69));
    assert_eq!(true, vec.get_bit(70));
    assert_eq!(false, vec.get_bit(71));
}

// The exact-alignment primitive puts the low `bits` bits of the data at the
// cursor itself, most-significant of them first, and advances by `bits`.
#[test]
fn test_push_bits_alignment() {
    let mut vec = AppendOnlyBitVec::new();
    vec.push_bits(3, 0b011);
    assert_eq!(3, vec.len());
    assert_eq!(false, vec.get_bit(0));
    assert_eq!(true, vec.get_bit(1));
    assert_eq!(true, vec.get_bit(2));
    vec.push_bits(14, 5);
    assert_eq!(17, vec.len());
    // the 14-bit field 5 occupies bits [3, 17): ...0000000000101
    assert_eq!(false, vec.get_bit(13));
    assert_eq!(true, vec.get_bit(14));
    assert_eq!(false, vec.get_bit(15));
    assert_eq!(true, vec.get_bit(16));
    vec.push_bits(64, !0);
    assert_eq!(81, vec.len());
    assert_eq!(!0, vec.get_block(17));
}

// Bit round-trip: a written bit reads back as written and its neighbours,
// including ones in other words, are untouched.
#[test]
fn test_bit_round_trip_keeps_neighbours() {
    let mut vec = BitVec::new();
    for i in 0..1024usize {
        if i % 3 == 0 {
            vec.set_bit(i, true);
        }
    }
    vec.set_bit(500, true);
    vec.set_bit(500, false);
    for i in 0..1024usize {
        assert_eq!(i % 3 == 0 && i != 500, vec.get_bit(i));
    }
}

// Block round-trip: an unaligned block write reads back exactly and leaves
// every bit outside its window unchanged.
#[test]
fn test_block_round_trip_keeps_neighbours() {
    let mut vec = BitVec::new();
    for i in 0..256usize {
        vec.set_bit(i, i % 2 == 0);
    }
    let pattern = 0xDEAD_BEEF_0123_4567u64;
    vec.set_block(70, pattern);
    assert_eq!(pattern, vec.get_block(70));
    for i in 0..70usize {
        assert_eq!(i % 2 == 0, vec.get_bit(i));
    }
    for i in 134..256usize {
        assert_eq!(i % 2 == 0, vec.get_bit(i));
    }
}

// Aligned/unaligned equivalence: a block read is the 64 single-bit reads
// reassembled most-significant bit first, at any alignment.
#[test]
fn test_block_matches_bits() {
    let mut vec = BitVec::new();
    vec.set_block(0, 0x0123_4567_89AB_CDEFu64);
    vec.set_block(64, 0xFEDC_BA98_7654_3210u64);
    for start in [0usize, 1, 13, 63, 64, 65, 70] {
        let block = vec.get_block(start);
        let mut rebuilt = 0u64;
        for k in 0..64usize {
            rebuilt = (rebuilt << 1) | (vec.get_bit(start + k) as u64);
        }
        assert_eq!(rebuilt, block);
    }
}
