use tsz::TSBlock;

#[test]
fn test_publish() {
    let mut ts = TSBlock::at(0);
    ts.publish_at(2.0f64.to_bits(), 5);
    ts.publish_at(4.0f64.to_bits(), 10);
    ts.publish_at(4.0f64.to_bits(), 20);
    ts.publish_at(2.0f64.to_bits(), 25);
    assert_eq!(
        &vec![
            0u64,
            0b0000000000010101000000000000000000000000000000000000000000000000,
            0b0000000000000001010110000011100000101010111101110101100000110000,
            0,
        ],
        ts.data()
    );
}

// A repeated sample one second after a repeated delta costs exactly two bits:
// prefix 0 for the timestamp and prefix 0 for the value.
#[test]
fn test_repeat_sample_two_bit_suffix() {
    let mut a = TSBlock::at(1_000_000_000);
    a.publish_at(3.14f64.to_bits(), 1_000_000_001);
    let after_first = a.data().clone();
    let len_first = a.len();
    a.publish_at(3.14f64.to_bits(), 1_000_000_002);
    assert_eq!(len_first, 142);
    assert_eq!(a.len(), 144);
    // both appended bits are zero, so the stored words do not change
    assert_eq!(&after_first, a.data());
}

// The header word is the base timestamp and stays put through publishes.
#[test]
fn test_header_stable() {
    let mut ts = TSBlock::at(123_456_789);
    assert_eq!(123_456_789, ts.header());
    ts.publish_at(1.0f64.to_bits(), 123_456_790);
    ts.publish_at(2.5f64.to_bits(), 123_456_795);
    ts.publish_at((-7.25f64).to_bits(), 123_456_799);
    assert_eq!(123_456_789, ts.header());
}

// Replaying one fixed sequence of samples gives a bit-identical block.
#[test]
fn test_replay_deterministic() {
    let samples = [(2.0f64, 5i64), (9.5, 11), (9.5, 17), (-3.0, 40), (0.0, 41)];
    let mut a = TSBlock::at(0);
    let mut b = TSBlock::at(0);
    for (v, t) in samples {
        a.publish_at(v.to_bits(), t);
        b.publish_at(v.to_bits(), t);
    }
    assert_eq!(a.data(), b.data());
    assert_eq!(a.len(), b.len());
}

// The first sample lays out a 14-bit delta then the raw 64-bit pattern after
// the 64-bit header.
#[test]
fn test_first_sample_layout() {
    let v = 3.14f64.to_bits();
    let mut ts = TSBlock::at(7);
    ts.publish_at(v, 12);
    assert_eq!(142, ts.len());
    let delta = 5u64;
    let word1 = (delta << 50) | (v >> 14);
    let word2 = v << 50;
    assert_eq!(&vec![7u64, word1, word2], ts.data());
}

// Each delta-of-delta range picks its field width: 1, 9, 12, 16 or 36 bits
// before the 1-bit unchanged-value field.
#[test]
fn test_time_branch_widths() {
    let v = 1.5f64.to_bits();
    let mut ts = TSBlock::at(0);
    ts.publish_at(v, 5);
    assert_eq!(142, ts.len()); // header 64 + delta 14 + value 64
    ts.publish_at(v, 10);
    assert_eq!(144, ts.len()); // dd = 0: 1 bit
    ts.publish_at(v, 16);
    assert_eq!(154, ts.len()); // dd = 1: 9 bits
    ts.publish_at(v, 322);
    assert_eq!(171, ts.len()); // dd = 300: 16 bits
    ts.publish_at(v, 728);
    assert_eq!(184, ts.len()); // dd = 100: 12 bits
    ts.publish_at(v, 1_000_000_000);
    assert_eq!(221, ts.len()); // dd far out of range: 36 bits
}

// The XOR value field either reuses the previous meaningful window (2 control
// bits) or restates it (12 bits of control plus the window).
#[test]
fn test_value_branch_widths() {
    let v1 = 0x3FF0_0000_0000_0001u64; // 2 leading zeros, 0 trailing zeros
    let v2 = 0x3FF0_0000_0000_0003u64; // xor = 2: fits the previous window
    let mut ts = TSBlock::at(0);
    ts.publish_at(v1, 5);
    assert_eq!(142, ts.len());
    ts.publish_at(v2, 10);
    // dd = 0 costs 1 bit; window width 64 - 2 - 0 = 62 costs 2 + 62 bits
    assert_eq!(142 + 1 + 64, ts.len());
    let mut other = TSBlock::at(0);
    other.publish_at(2.0f64.to_bits(), 5);
    other.publish_at(4.0f64.to_bits(), 10);
    // xor window moved: 1 + 5 + 6 control bits plus 1 meaningful bit
    assert_eq!(142 + 1 + 13, other.len());
}

// Samples the block has no encoding for are reported, not encoded: a value
// whose XOR spans all 64 bits after a full-width first window, and a
// timestamp whose delta overflows the signed 64-bit range.
#[test]
fn test_unencodable_samples_reported() {
    let v1 = 0x8000_0000_0000_0001u64; // leading = trailing = 0
    let mut ts = TSBlock::at(0);
    ts.publish_at(v1, 1);
    assert!(ts.can_publish_at(!v1, 2) == false);
    assert!(ts.can_publish_at(v1, 2));

    let far = TSBlock::at(i64::MIN);
    assert!(far.can_publish_at(1.0f64.to_bits(), i64::MAX) == false);
    assert!(far.can_publish_at(1.0f64.to_bits(), 0) == false);
    assert!(far.can_publish_at(1.0f64.to_bits(), i64::MIN + 5));
}

// Publishing at the wall clock encodes a first sample: from a fresh block any
// clock reading is encodable.
#[test]
fn test_publish_uses_clock() {
    let mut ts = TSBlock::at(0);
    ts.publish(1.0f64.to_bits());
    assert_eq!(142, ts.len());
}

// A block created from the wall clock is empty but for its header.
#[test]
fn test_new_has_only_header() {
    let ts = TSBlock::new();
    assert_eq!(64, ts.len());
    assert_eq!(1, ts.data().len());
    assert_eq!(ts.header(), ts.data()[0]);
}
