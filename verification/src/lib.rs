//! Gorilla-style time-series compression: a bit-addressable buffer and a
//! delta-of-delta / XOR block encoder built on top of it.
//!
//! A [`TSBlock`] starts with a 64-bit base-timestamp header, stores the first
//! sample as a 14-bit delta plus the raw 64-bit value pattern, and encodes
//! every further sample as a delta-of-delta timestamp field followed by an
//! XOR-compressed value field.

pub mod bit_vec;

use vstd::prelude::*;
use vstd::std_specs::bits::{u64_leading_zeros, u64_trailing_zeros};
use crate::bit_vec::{
    AppendOnlyBitVec, AppendView, push_model, set_block_words, stream_block, grow_words,
    blocks_for,
};

verus! {

broadcast use vstd::std_specs::bits::group_bits_axioms;

/// State of the most recently published sample: its timestamp, the delta that
/// led to it, the value's bit pattern, and the counts of leading and trailing
/// zero bits used by the XOR window encoding.
#[derive(Clone, Copy)]
pub struct Last {
    pub delta: i64,
    pub ts: i64,
    pub val: u64,
    pub leading: u32,
    pub trailing: u32,
}

/// The abstract state of a time-series block: the last-sample record, present
/// iff at least one sample has been published, and the bit stream.
#[verifier::ext_equal]
pub struct BlockView {
    pub last: Option<Last>,
    pub data: AppendView,
}

/// The block's 64-bit header: the first block of the stream.
pub open spec fn header_of(m: BlockView) -> u64 {
    stream_block(m.data.words, 0)
}

/// A block always holds at least its 64-bit header.
pub open spec fn well_formed(m: BlockView) -> bool {
    &&& m.data.words.len() >= 1
    &&& m.data.len >= 64
}

/// The timestamp field emitted for a delta-of-delta `dd`: a unary-style prefix
/// selects the field width, then the low bits of `dd` in two's complement.
/// Returns (width in bits, field right-justified in a word).
pub open spec fn time_block_spec(dd: i64) -> (int, u64) {
    if dd == 0 {
        (1int, 0u64)
    } else if -63 <= dd <= 64 {
        (9int, (0b10u64 << 7) | (dd as u64 & (!0u64 >> 57)))
    } else if -255 <= dd <= 256 {
        (12int, (0b110u64 << 9) | (dd as u64 & (!0u64 >> 55)))
    } else if -2047 <= dd <= 2048 {
        (16int, (0b1110u64 << 12) | (dd as u64 & (!0u64 >> 52)))
    } else {
        (36int, (0b1111u64 << 32) | (dd as u64 & (!0u64 >> 32)))
    }
}

/// The value field emitted for an XOR `xor` with `leading`/`trailing` zero
/// counts, against the previous window `last_leading`/`last_trailing`: `0` for
/// an unchanged value; `10` plus the previous window when the new meaningful
/// bits fit inside it; else `1`, 5 bits of leading count, 6 bits of width, and
/// the meaningful bits. Returns (width in bits, field right-justified).
pub open spec fn value_block_spec(
    xor: u64,
    leading: u32,
    trailing: u32,
    last_leading: u32,
    last_trailing: u32,
) -> (int, u64) {
    if xor == 0 {
        (1int, 0u64)
    } else if last_leading <= leading && last_trailing <= trailing {
        let len = 64 - last_leading - last_trailing;
        (2 + len, (0b10u64 << (len as u64)) | (xor >> (last_trailing as u64)))
    } else {
        let len = 64 - leading - trailing;
        (
            12 + len,
            (1u64 << ((11 + len) as u64)) | ((leading as u64) << ((6 + len) as u64)) | ((
            len as u64) << (len as u64)) | (xor >> (trailing as u64)),
        )
    }
}

/// Whether the value field for `vbits` against last-sample `l` fits in the 64
/// bits a single emission can carry. The encoding has no representation for
/// wider fields, so publishing such a value is excluded.
pub open spec fn value_width_ok(l: Last, vbits: u64) -> bool {
    let x = vbits ^ l.val;
    ||| x == 0
    ||| {
        let lz = u64_leading_zeros(x);
        let tz = u64_trailing_zeros(x);
        if l.leading <= lz && l.trailing <= tz {
            l.leading + l.trailing >= 2
        } else {
            lz + tz >= 12
        }
    }
}

/// The inputs on which `publish_at` is defined: a well-formed block with head
/// room in the cursor, timestamp differences that fit a signed 64-bit delta,
/// and a value field that fits a single emission.
pub open spec fn publish_ok(m: BlockView, vbits: u64, ts: i64) -> bool {
    &&& well_formed(m)
    &&& m.data.len + 192 <= usize::MAX
    &&& match m.last {
        Option::None => i64::MIN <= ts - (header_of(m) as i64) <= i64::MAX,
        Option::Some(l) => {
            &&& i64::MIN <= ts - l.ts <= i64::MAX
            &&& i64::MIN <= (ts - l.ts) - l.delta <= i64::MAX
            &&& value_width_ok(l, vbits)
        },
    }
}

/// The block state after publishing the value with bit pattern `vbits` at
/// timestamp `ts`: the first sample is stored as a 14-bit delta against the
/// header plus the raw 64-bit pattern; every further sample as a
/// delta-of-delta timestamp field followed by an XOR value field. The
/// last-sample record always takes the new timestamp, delta, pattern and zero
/// counts.
pub open spec fn publish_spec(m: BlockView, vbits: u64, ts: i64) -> BlockView {
    match m.last {
        Option::None => {
            let delta = (ts - header_of(m) as i64) as i64;
            let d1 = push_model(m.data, 14, delta as u64);
            let d2 = push_model(d1, 64, vbits);
            BlockView {
                last: Option::Some(
                    Last {
                        ts: ts,
                        delta: delta,
                        val: vbits,
                        leading: u64_leading_zeros(vbits) as u32,
                        trailing: u64_trailing_zeros(vbits),
                    },
                ),
                data: d2,
            }
        },
        Option::Some(l) => {
            let delta = (ts - l.ts) as i64;
            let dd = (delta - l.delta) as i64;
            let tb = time_block_spec(dd);
            let d1 = push_model(m.data, tb.0, tb.1);
            let x = vbits ^ l.val;
            let lz = u64_leading_zeros(x) as u32;
            let tz = u64_trailing_zeros(x);
            let vb = value_block_spec(x, lz, tz, l.leading, l.trailing);
            let d2 = push_model(d1, vb.0, vb.1);
            BlockView {
                last: Option::Some(
                    Last { ts: ts, delta: delta, val: vbits, leading: lz, trailing: tz },
                ),
                data: d2,
            }
        },
    }
}

/// The state of a block freshly created at base timestamp `ts`: no sample yet
/// and a stream of exactly the 64-bit header.
pub open spec fn at_spec(ts: i64) -> BlockView {
    BlockView {
        last: Option::None,
        data: AppendView { words: seq![ts as u64], len: 64 },
    }
}

/// A nonzero word has at most 63 leading plus trailing zero bits.
proof fn lemma_clz_ctz_sum(x: u64)
    requires
        x != 0,
    ensures
        u64_leading_zeros(x) + u64_trailing_zeros(x) <= 63,
        0 <= u64_leading_zeros(x) <= 63,
        0 <= u64_trailing_zeros(x) <= 63,
{
    let lz = u64_leading_zeros(x);
    let tz = u64_trailing_zeros(x);
    if lz + tz > 63 {
        let j = tz as u64;
        assert(64 - lz <= j < 64);
        assert((x >> j) & 1u64 == 0u64);
        assert((x >> (u64_trailing_zeros(x) as u64)) & 1u64 == 1u64);
    }
}

/// Every timestamp field is between 1 and 36 bits wide.
proof fn lemma_time_block_width(dd: i64)
    ensures
        1 <= time_block_spec(dd).0 <= 36,
{
}

/// Under `value_width_ok`, every value field is between 1 and 64 bits wide.
proof fn lemma_value_block_width(xor: u64, lz: u32, tz: u32, ll: u32, lt: u32)
    requires
        lz as int == u64_leading_zeros(xor),
        tz == u64_trailing_zeros(xor),
        xor != 0 && ll <= lz && lt <= tz ==> ll + lt >= 2,
        xor != 0 && !(ll <= lz && lt <= tz) ==> lz + tz >= 12,
    ensures
        1 <= value_block_spec(xor, lz, tz, ll, lt).0 <= 64,
{
    if xor != 0 {
        lemma_clz_ctz_sum(xor);
    }
}

/// Pushing a field at a cursor past the header leaves word 0, and so the
/// header, unchanged.
proof fn lemma_push_preserves_header(d: AppendView, bits: int, data: u64)
    requires
        d.words.len() >= 1,
        d.len >= 64,
        bits >= 1,
    ensures
        push_model(d, bits, data).words.len() >= d.words.len(),
        push_model(d, bits, data).words[0] == d.words[0],
        bits <= 64 ==> push_model(d, bits, data).len == d.len + bits,
{
    let i = d.len as int;
    let w = i / 64;
    let m = i % 64;
    assert(i == 64 * w + m && 0 <= m < 64) by (nonlinear_arith)
        requires
            i >= 0 && w == i / 64 && m == i % 64,
    ;
    assert(w >= 1);
}

/// Time-series block encoder: a bit stream opened with a 64-bit base
/// timestamp, to which `(timestamp, value-bit-pattern)` samples are appended
/// in compressed form.
pub struct TSBlock {
    last: Option<Last>,
    data: AppendOnlyBitVec,
}

impl View for TSBlock {
    type V = BlockView;

    closed spec fn view(&self) -> BlockView {
        BlockView { last: self.last, data: self.data@ }
    }
}

/// Timestamp delta information computed against the last sample.
struct Deltas {
    delta: i64,
    delta_delta: i64,
}

/// A compressed field: its width and its bits, right-justified.
struct CompressedBlock {
    bits: usize,
    block: u64,
}

/// Leading/trailing zero counts of the current XOR and of the previous
/// meaningful window.
struct ZeroInfo {
    leading: u32,
    trailing: u32,
    last_leading: u32,
    last_trailing: u32,
}

/// Relies on `time::OffsetDateTime::now_utc` and `unix_timestamp`: the clock's
/// current whole seconds since the Unix epoch. Nothing is promised of the
/// value; callers state what holds of every outcome.
#[verifier::external_body]
fn now_unix_seconds() -> i64 {
    time::OffsetDateTime::now_utc().unix_timestamp()
}

impl TSBlock {
    /// Creates a block whose base timestamp is the current wall-clock second.
    pub fn new() -> (r: TSBlock)
        ensures
            exists|ts: i64| r@ == at_spec(ts),
            well_formed(r@),
    {
        let ts = now_unix_seconds();
        let r = TSBlock::at(ts);
        proof {
            assert(r@ == at_spec(ts));
        }
        r
    }

    /// Creates a block starting at `ts` seconds from the epoch; the stream
    /// opens with `ts` as a 64-bit header word.
    pub fn at(ts: i64) -> (r: TSBlock)
        ensures
            r@ == at_spec(ts),
            well_formed(r@),
            header_of(r@) == ts as u64,
    {
        let mut data = AppendOnlyBitVec::with_capacity(1024);
        data.append(64, #[verifier::truncate] (ts as u64));
        let r = TSBlock { last: None, data };
        proof {
            let tsu = ts as u64;
            assert(blocks_for(64) == 1);
            assert(grow_words(Seq::<u64>::empty(), 1) =~= seq![0u64]);
            assert(set_block_words(Seq::<u64>::empty(), 0, tsu) =~= seq![tsu]);
            assert(r@ =~= at_spec(ts));
        }
        r
    }

    /// The block's header: the base timestamp as an unsigned 64-bit word.
    pub fn header(&self) -> (r: u64)
        ensures
            r == header_of(self@),
    {
        self.data.get_block(0)
    }

    /// The number of bits written to the block so far.
    pub fn len(&self) -> (r: usize)
        ensures
            r == self@.data.len,
    {
        self.data.len()
    }

    /// The stored words of the block's bit stream.
    pub fn data(&self) -> (r: &Vec<u64>)
        ensures
            r@ == self@.data.words,
    {
        self.data.data()
    }

    /// Whether `publish_at(value_bits, ts)` is accepted from the current
    /// state.
    pub fn can_publish_at(&self, value_bits: u64, ts: i64) -> (r: bool)
        ensures
            r == publish_ok(self@, value_bits, ts),
    {
        if self.data.data().len() < 1 {
            return false;
        }
        let len = self.data.len();
        if len < 64 || len > usize::MAX - 192 {
            return false;
        }
        if self.last.is_some() {
            let l = self.last.unwrap();
            let d1 = (ts as i128) - (l.ts as i128);
            if d1 < i64::MIN as i128 || d1 > i64::MAX as i128 {
                return false;
            }
            let d2 = d1 - (l.delta as i128);
            if d2 < i64::MIN as i128 || d2 > i64::MAX as i128 {
                return false;
            }
            let xor = value_bits ^ l.val;
            if xor == 0 {
                return true;
            }
            let lz = xor.leading_zeros();
            let tz = xor.trailing_zeros();
            if l.leading <= lz && l.trailing <= tz {
                (l.leading as u64) + (l.trailing as u64) >= 2
            } else {
                (lz as u64) + (tz as u64) >= 12
            }
        } else {
            let hdr = self.header();
            let d = (ts as i128) - ((hdr as i64) as i128);
            i64::MIN as i128 <= d && d <= i64::MAX as i128
        }
    }

    /// Publish a value, given by its IEEE-754 bit pattern, at the current
    /// wall-clock second. A sample the block cannot encode (see
    /// [`publish_ok`]) is dropped and the block is unchanged.
    pub fn publish(&mut self, value_bits: u64)
        ensures
            exists|ts: i64|
                if #[trigger] publish_ok(old(self)@, value_bits, ts) {
                    final(self)@ == publish_spec(old(self)@, value_bits, ts)
                } else {
                    final(self)@ == old(self)@
                },
    {
        let ts = now_unix_seconds();
        if self.can_publish_at(value_bits, ts) {
            self.publish_at(value_bits, ts);
        }
        proof {
            assert(if publish_ok(old(self)@, value_bits, ts) {
                self@ == publish_spec(old(self)@, value_bits, ts)
            } else {
                self@ == old(self)@
            });
        }
    }

    /// Publish a value, given by its IEEE-754 bit pattern, at `ts` seconds
    /// from the epoch. The stream gains the sample's timestamp field followed
    /// by its value field, and the last-sample record takes the new state.
    pub fn publish_at(&mut self, value_bits: u64, ts: i64)
        requires
            publish_ok(old(self)@, value_bits, ts),
        ensures
            final(self)@ == publish_spec(old(self)@, value_bits, ts),
            well_formed(final(self)@),
            header_of(final(self)@) == header_of(old(self)@),
    {
        proof {
            lemma_publish_preserves_header(old(self)@, value_bits, ts);
        }
        if self.last.is_some() {
            // timestamp compression
            let last = self.last.unwrap();
            let deltas = TSBlock::calculate_deltas(&last, ts);
            let tb = TSBlock::compressed_time_block(deltas.delta_delta);
            self.data.push_bits(tb.bits, tb.block);
            // value compression
            let xor = value_bits ^ last.val;
            let leading = xor.leading_zeros();
            let trailing = xor.trailing_zeros();
            proof {
                if xor != 0 {
                    lemma_clz_ctz_sum(xor);
                }
            }
            let zinfo = ZeroInfo {
                leading: leading,
                trailing: trailing,
                last_leading: last.leading,
                last_trailing: last.trailing,
            };
            let vb = TSBlock::compressed_value_block(xor, zinfo);
            self.data.push_bits(vb.bits, vb.block);
            self.last = Some(
                Last {
                    ts: ts,
                    delta: deltas.delta,
                    val: value_bits,
                    leading: leading,
                    trailing: trailing,
                },
            );
        } else {
            // first value is uncompressed
            let header = self.header();
            let delta = ts - (header as i64);
            self.data.push_bits(14, #[verifier::truncate] (delta as u64));
            self.data.push_bits(64, value_bits);
            self.last = Some(
                Last {
                    ts: ts,
                    delta: delta,
                    val: value_bits,
                    leading: value_bits.leading_zeros(),
                    trailing: value_bits.trailing_zeros(),
                },
            );
        }
        proof {
            assert(self@ =~= publish_spec(old(self)@, value_bits, ts));
        }
    }

    /// The timestamp delta and delta-of-delta of `ts` against the last sample.
    fn calculate_deltas(last: &Last, ts: i64) -> (r: Deltas)
        requires
            i64::MIN <= ts - last.ts <= i64::MAX,
            i64::MIN <= (ts - last.ts) - last.delta <= i64::MAX,
        ensures
            r.delta == ts - last.ts,
            r.delta_delta == (ts - last.ts) - last.delta,
    {
        let delta = ts - last.ts;
        Deltas { delta: delta, delta_delta: delta - last.delta }
    }

    /// The compressed timestamp field for a delta-of-delta `dd`.
    fn compressed_time_block(dd: i64) -> (r: CompressedBlock)
        ensures
            r.bits == time_block_spec(dd).0,
            r.block == time_block_spec(dd).1,
            1 <= r.bits <= 36,
    {
        if dd == 0 {
            // 1 bit if delta delta is 0
            CompressedBlock { bits: 1, block: 0 }
        } else if -63 <= dd && dd <= 64 {
            // 2 bits of header, 7 bits of value
            let masked_value = (#[verifier::truncate] (dd as u64)) & (!0u64 >> 57);
            CompressedBlock { bits: 9, block: (0b10u64 << 7) | masked_value }
        } else if -255 <= dd && dd <= 256 {
            // 3 bits of header, 9 bits of value
            let masked_value = (#[verifier::truncate] (dd as u64)) & (!0u64 >> 55);
            CompressedBlock { bits: 12, block: (0b110u64 << 9) | masked_value }
        } else if -2047 <= dd && dd <= 2048 {
            // 4 bits of header, 12 bits of value
            let masked_value = (#[verifier::truncate] (dd as u64)) & (!0u64 >> 52);
            CompressedBlock { bits: 16, block: (0b1110u64 << 12) | masked_value }
        } else {
            // 4 bits of header, 32 bits of value
            let masked_value = (#[verifier::truncate] (dd as u64)) & (!0u64 >> 32);
            CompressedBlock { bits: 36, block: (0b1111u64 << 32) | masked_value }
        }
    }

    /// The compressed value field for an XOR and its zero-count information.
    fn compressed_value_block(xor: u64, zinfo: ZeroInfo) -> (r: CompressedBlock)
        requires
            zinfo.leading as int == u64_leading_zeros(xor),
            zinfo.trailing == u64_trailing_zeros(xor),
            xor != 0 && zinfo.last_leading <= zinfo.leading && zinfo.last_trailing
                <= zinfo.trailing ==> zinfo.last_leading + zinfo.last_trailing >= 2,
            xor != 0 && !(zinfo.last_leading <= zinfo.leading && zinfo.last_trailing
                <= zinfo.trailing) ==> zinfo.leading + zinfo.trailing >= 12,
        ensures
            r.bits == value_block_spec(
                xor,
                zinfo.leading,
                zinfo.trailing,
                zinfo.last_leading,
                zinfo.last_trailing,
            ).0,
            r.block == value_block_spec(
                xor,
                zinfo.leading,
                zinfo.trailing,
                zinfo.last_leading,
                zinfo.last_trailing,
            ).1,
            1 <= r.bits <= 64,
    {
        if xor == 0 {
            // 1 bit if xor is 0
            return CompressedBlock { bits: 1, block: 0 };
        }
        proof {
            lemma_clz_ctz_sum(xor);
        }
        if zinfo.last_leading <= zinfo.leading && zinfo.last_trailing <= zinfo.trailing {
            // 2 control bits, then the previous meaningful window
            let len = 64 - zinfo.last_leading - zinfo.last_trailing;
            let control = 0b10u64 << len;
            let meaningful = xor >> zinfo.last_trailing;
            CompressedBlock { bits: 2 + len as usize, block: control | meaningful }
        } else {
            // 1 control bit, 5 bits of leading-zero count, 6 bits of window
            // width, then the meaningful section
            let len = 64 - zinfo.leading - zinfo.trailing;
            let control = 1u64 << (11 + len);
            let leading = (zinfo.leading as u64) << (6 + len);
            let n_meaningful = (len as u64) << len;
            let meaningful = xor >> zinfo.trailing;
            CompressedBlock {
                bits: 12 + len as usize,
                block: control | leading | n_meaningful | meaningful,
            }
        }
    }
}

/// Header stability: an accepted publish never changes the block's header.
pub proof fn lemma_publish_preserves_header(m: BlockView, vbits: u64, ts: i64)
    requires
        publish_ok(m, vbits, ts),
    ensures
        header_of(publish_spec(m, vbits, ts)) == header_of(m),
        well_formed(publish_spec(m, vbits, ts)),
{
    let r = publish_spec(m, vbits, ts);
    match m.last {
        Option::None => {
            let delta = (ts - header_of(m) as i64) as i64;
            let d1 = push_model(m.data, 14, delta as u64);
            lemma_push_preserves_header(m.data, 14, delta as u64);
            lemma_push_preserves_header(d1, 64, vbits);
        },
        Option::Some(l) => {
            let delta = (ts - l.ts) as i64;
            let dd = (delta - l.delta) as i64;
            let tb = time_block_spec(dd);
            let d1 = push_model(m.data, tb.0, tb.1);
            let x = vbits ^ l.val;
            let lz = u64_leading_zeros(x) as u32;
            let tz = u64_trailing_zeros(x);
            let vb = value_block_spec(x, lz, tz, l.leading, l.trailing);
            lemma_time_block_width(dd);
            lemma_value_block_width(x, lz, tz, l.leading, l.trailing);
            lemma_push_preserves_header(m.data, tb.0, tb.1);
            lemma_push_preserves_header(d1, vb.0, vb.1);
        },
    }
}

/// The block state after publishing each sample of `samples` in order.
pub open spec fn replay(m: BlockView, samples: Seq<(u64, i64)>) -> BlockView
    decreases samples.len(),
{
    if samples.len() == 0 {
        m
    } else {
        replay(publish_spec(m, samples[0].0, samples[0].1), samples.drop_first())
    }
}

/// Encoder determinism: replaying one fixed sequence of samples from equal
/// block states yields bit-identical blocks. The encoder state after a replay
/// is a function of the starting state and the samples alone.
pub proof fn lemma_encoder_deterministic(m1: BlockView, m2: BlockView, samples: Seq<(u64, i64)>)
    requires
        m1 == m2,
    ensures
        replay(m1, samples) == replay(m2, samples),
{
}

} // verus!
