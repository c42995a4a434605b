//! A bit vector addressed most-significant-bit first.
//!
//! Bits are stored in 64-bit words; bit index `i` lives in word `i / 64` at
//! within-word position `63 - (i % 64)`, so bit 0 is the high bit of word 0 and
//! consecutive bit ranges form contiguous bit strings across word boundaries.

use vstd::prelude::*;

verus! {

/// Bit `b` of word `w`, counted from the least-significant end.
pub open spec fn word_bit(w: u64, b: u64) -> bool
    recommends
        b < 64,
{
    (w >> b) & 1 == 1
}

/// The stream bit at index `i` of a word sequence: bit `63 - (i % 64)` of word
/// `i / 64`. Out-of-range indices read as zero.
pub open spec fn stream_bit(words: Seq<u64>, i: int) -> bool
    recommends
        i >= 0,
{
    &&& 0 <= i
    &&& i / 64 < words.len()
    &&& word_bit(words[i / 64], (63 - (i % 64)) as u64)
}

/// Bit `k` of a 64-bit block, counted from the most-significant end, the order
/// in which the block's bits enter the stream.
pub open spec fn block_bit(b: u64, k: int) -> bool
    recommends
        0 <= k < 64,
{
    &&& 0 <= k < 64
    &&& word_bit(b, (63 - k) as u64)
}

/// How many 64-bit words it takes to contain `nbits` bits.
pub open spec fn blocks_for(nbits: int) -> int
    recommends
        nbits >= 0,
{
    if nbits % 64 == 0 {
        nbits / 64
    } else {
        nbits / 64 + 1
    }
}

/// `words` extended with zero words until it holds at least `n` words;
/// unchanged if it is already long enough.
pub open spec fn grow_words(words: Seq<u64>, n: int) -> Seq<u64> {
    if words.len() >= n {
        words
    } else {
        words + Seq::new((n - words.len()) as nat, |j: int| 0u64)
    }
}

/// The word sequence after writing bit `i`.
pub open spec fn set_bit_words(words: Seq<u64>, i: int, v: bool) -> Seq<u64>
    recommends
        i >= 0,
{
    let g = grow_words(words, blocks_for(i + 1));
    let w = i / 64;
    let mask = 1u64 << ((63 - (i % 64)) as u64);
    g.update(w, if v { g[w] | mask } else { g[w] & !mask })
}

/// The word sequence after writing the 64-bit window `[i, i + 64)` with the
/// bits of `b`, most-significant bit of `b` first.
pub open spec fn set_block_words(words: Seq<u64>, i: int, b: u64) -> Seq<u64>
    recommends
        i >= 0,
{
    let g = grow_words(words, blocks_for(i + 64));
    let w = i / 64;
    let m = i % 64;
    if m == 0 {
        g.update(w, b)
    } else {
        let g1 = g.update(w, (g[w] & (!0u64 << ((64 - m) as u64))) | (b >> (m as u64)));
        g1.update(w + 1, (g1[w + 1] & (!0u64 >> (m as u64))) | (b << ((64 - m) as u64)))
    }
}

/// The 64 bits starting at stream index `i`, reassembled most-significant-bit
/// first into a `u64`. Bits past the stored words read as zero.
pub open spec fn stream_block(words: Seq<u64>, i: int) -> u64
    recommends
        i >= 0,
{
    let w = i / 64;
    let m = i % 64;
    if w >= words.len() {
        0u64
    } else if m == 0 {
        words[w]
    } else {
        let hi = words[w] << (m as u64);
        if w + 1 >= words.len() {
            hi
        } else {
            hi | (words[w + 1] >> ((64 - m) as u64))
        }
    }
}

/// The abstract state of an append cursor over a bit stream: the stored words
/// and the next bit position to be written.
#[verifier::ext_equal]
pub struct AppendView {
    pub words: Seq<u64>,
    pub len: nat,
}

/// The cursor state after `append(bits, data)`: one bit is written with a bit
/// write, 64 with a block write, and any other width as a block whose low
/// `bits` bits of `data` sit one position below the top of the window; the
/// cursor advances by `bits` either way.
pub open spec fn append_model(m: AppendView, bits: int, data: u64) -> AppendView
    recommends
        0 <= bits <= 64,
{
    if bits == 0 {
        m
    } else if bits == 1 {
        AppendView {
            words: set_bit_words(m.words, m.len as int, data & 1 == 1),
            len: (m.len + 1) as nat,
        }
    } else if bits == 64 {
        AppendView {
            words: set_block_words(m.words, m.len as int, data),
            len: (m.len + 64) as nat,
        }
    } else {
        AppendView {
            words: set_block_words(
                m.words,
                m.len as int,
                (data & (!0u64 >> ((64 - bits) as u64))) << ((63 - bits) as u64),
            ),
            len: (m.len + bits) as nat,
        }
    }
}

/// The cursor state after `push_bits(bits, data)`: the low `bits` bits of
/// `data` enter the stream at the cursor, most-significant of them first, and
/// the cursor advances by `bits`.
pub open spec fn push_model(m: AppendView, bits: int, data: u64) -> AppendView
    recommends
        1 <= bits <= 64,
{
    if bits == 1 {
        AppendView {
            words: set_bit_words(m.words, m.len as int, data & 1 == 1),
            len: (m.len + 1) as nat,
        }
    } else if bits == 64 {
        AppendView {
            words: set_block_words(m.words, m.len as int, data),
            len: (m.len + 64) as nat,
        }
    } else {
        AppendView {
            words: set_block_words(
                m.words,
                m.len as int,
                (data & (!0u64 >> ((64 - bits) as u64))) << ((64 - bits) as u64),
            ),
            len: (m.len + bits) as nat,
        }
    }
}

/// A growable sequence of 64-bit words holding a bit stream, most-significant
/// bit of word 0 first.
pub struct BitVec {
    data: Vec<u64>,
}

impl View for BitVec {
    type V = Seq<u64>;

    closed spec fn view(&self) -> Seq<u64> {
        self.data@
    }
}

/// Word index of bit `index`.
fn block_i(index: usize) -> (r: usize)
    ensures
        r == index as int / 64,
{
    index / 64
}

/// Within-word position of bit `index`, counted from the least-significant end.
fn offset_i(index: usize) -> (r: u64)
    ensures
        r == (63 - (index as int % 64)) as u64,
        r < 64,
{
    63 - (index % 64) as u64
}

/// Whether bit `index` starts a word.
fn block_aligned(index: usize) -> (r: bool)
    ensures
        r == (index as int % 64 == 0),
{
    index % 64 == 0
}

/// The number of 64-bit words it takes to contain `nbits` bits.
fn blocks(nbits: usize) -> (r: usize)
    ensures
        r == blocks_for(nbits as int),
{
    proof {
        assert(nbits >> 6 == nbits / 64) by (bit_vector);
        assert(nbits / 64 < usize::MAX) by (nonlinear_arith)
            requires
                nbits <= usize::MAX && usize::MAX >= 64,
        ;
    }
    match nbits % 64 {
        0 => nbits >> 6,
        _ => (nbits >> 6) + 1,
    }
}

impl BitVec {
    pub fn new() -> (r: BitVec)
        ensures
            r@ == Seq::<u64>::empty(),
    {
        let v = BitVec { data: Vec::new() };
        proof {
            assert(v@ =~= Seq::<u64>::empty());
        }
        v
    }

    pub fn with_capacity(nbits: usize) -> (r: BitVec)
        ensures
            r@ == Seq::<u64>::empty(),
    {
        let v = BitVec { data: Vec::with_capacity(blocks(nbits)) };
        proof {
            assert(v@ =~= Seq::<u64>::empty());
        }
        v
    }

    /// Whether bit `index` lies in a word beyond the current storage.
    fn out_of_bounds(&self, index: usize) -> (r: bool)
        requires
            index < usize::MAX,
        ensures
            r == (blocks_for(index as int + 1) > self@.len()),
    {
        blocks(index + 1) > self.data.len()
    }

    /// Extend the storage with zero words until it holds at least `n` words.
    fn grow_to(&mut self, n: usize)
        ensures
            final(self)@ == grow_words(old(self)@, n as int),
    {
        let ghost orig = self@;
        while self.data.len() < n
            invariant
                orig.len() <= self@.len(),
                orig.is_prefix_of(self@),
                forall|j: int| orig.len() <= j < self@.len() ==> self@[j] == 0u64,
                self@.len() <= orig.len() || self@.len() <= n,
            decreases n - self@.len(),
        {
            self.data.push(0u64);
        }
        proof {
            assert(self@ =~= grow_words(orig, n as int));
        }
    }

    /// Read bit `index`; bits beyond the storage read as zero.
    pub fn get_bit(&self, index: usize) -> (r: bool)
        requires
            index < usize::MAX,
        ensures
            r == stream_bit(self@, index as int),
    {
        if self.out_of_bounds(index) {
            proof {
                lemma_blocks_for_one(index as int);
            }
            return false;
        }
        proof {
            lemma_blocks_for_one(index as int);
        }
        let block = self.data[block_i(index)];
        let offset = offset_i(index);
        let mask = 1u64 << offset;
        let r = (block & mask) >> offset == 1;
        proof {
            let b = (63 - (index as int % 64)) as u64;
            assert(b < 64 ==> (((block & (1u64 << b)) >> b == 1) == ((block >> b) & 1 == 1)))
                by (bit_vector);
        }
        r
    }

    /// Write bit `index`, growing the storage to cover it.
    pub fn set_bit(&mut self, index: usize, value: bool)
        requires
            index < usize::MAX,
        ensures
            final(self)@ == set_bit_words(old(self)@, index as int, value),
    {
        proof {
            lemma_blocks_for_one(index as int);
        }
        if self.out_of_bounds(index) {
            let n = blocks(index + 1);
            self.grow_to(n);
        }
        let ghost g = grow_words(old(self)@, blocks_for(index as int + 1));
        proof {
            assert(self@ =~= g);
        }
        let w = block_i(index);
        let offset = offset_i(index);
        let mask = 1u64 << offset;
        if value {
            let updated = self.data[w] | mask;
            self.data[w] = updated;
        } else {
            let updated = self.data[w] & !mask;
            self.data[w] = updated;
        }
        proof {
            assert(self@ =~= set_bit_words(old(self)@, index as int, value));
        }
    }

    /// Read the 64 bits starting at position `index`, most-significant bit
    /// first; bits beyond the storage read as zero.
    pub fn get_block(&self, index: usize) -> (r: u64)
        requires
            index < usize::MAX,
        ensures
            r == stream_block(self@, index as int),
    {
        if block_i(index) >= self.data.len() {
            // returns 0 if out of bounds
            return 0;
        }
        let block = self.data[block_i(index)];
        let offset = offset_i(index);
        if offset == 63 {
            return block;
        }
        let result = block << (63 - offset);
        if block_i(index) + 1 >= self.data.len() {
            // return early if out of bounds
            return result;
        }
        let next_block = self.data[block_i(index) + 1];
        result | (next_block >> (offset + 1))
    }

    /// Write the 64 bits of `block` starting at position `index`,
    /// most-significant bit first, growing the storage to cover the window
    /// (plus the straddle word when the write is unaligned).
    pub fn set_block(&mut self, index: usize, block: u64)
        requires
            index + 64 <= usize::MAX,
        ensures
            final(self)@ == set_block_words(old(self)@, index as int, block),
    {
        proof {
            lemma_blocks_for_window(index as int);
        }
        if self.out_of_bounds(index + 63) {
            let n = blocks(index + 64);
            self.grow_to(n);
        }
        let ghost g = grow_words(old(self)@, blocks_for(index as int + 64));
        proof {
            lemma_blocks_for_one(index as int + 63);
            assert(self@ =~= g);
        }
        if !self.set_cur_block(index, block) {
            self.set_next_block(index, block);
        }
        proof {
            assert(self@ =~= set_block_words(old(self)@, index as int, block));
        }
    }

    /// Write the high `64 - (index % 64)` bits of `block` into the word that
    /// holds bit `index`. Returns true iff `index` is word-aligned, in which
    /// case the whole word was overwritten.
    fn set_cur_block(&mut self, index: usize, block: u64) -> (r: bool)
        requires
            index < usize::MAX,
            index as int / 64 < old(self)@.len(),
        ensures
            r == (index as int % 64 == 0),
            r ==> final(self)@ == old(self)@.update(index as int / 64, block),
            !r ==> final(self)@ == old(self)@.update(
                index as int / 64,
                (old(self)@[index as int / 64] & (!0u64 << ((64 - (index as int % 64)) as u64)))
                    | (block >> ((index as int % 64) as u64)),
            ),
    {
        let w = block_i(index);
        if block_aligned(index) {
            self.data[w] = block;
            true
        } else {
            let offset = offset_i(index);
            let mask = !0u64 << (offset + 1);
            let data = block >> (64 - (offset + 1));
            let updated = (self.data[w] & mask) | data;
            self.data[w] = updated;
            false
        }
    }

    /// Write the low `index % 64` bits of `block` into the high end of the
    /// word after the one that holds bit `index`.
    fn set_next_block(&mut self, index: usize, block: u64)
        requires
            index < usize::MAX,
            index as int % 64 != 0,
            index as int / 64 + 1 < old(self)@.len(),
        ensures
            final(self)@ == old(self)@.update(
                index as int / 64 + 1,
                (old(self)@[index as int / 64 + 1] & (!0u64 >> ((index as int % 64) as u64)))
                    | (block << ((64 - (index as int % 64)) as u64)),
            ),
    {
        let w = block_i(index) + 1;
        let offset = offset_i(index);
        let mask = !0u64 >> (64 - (offset + 1));
        let data = block << (offset + 1);
        let updated = (self.data[w] & mask) | data;
        self.data[w] = updated;
    }

    /// Zero every stored word; the storage keeps its length.
    pub fn clear(&mut self)
        ensures
            final(self)@ == Seq::new(old(self)@.len(), |j: int| 0u64),
    {
        let ghost orig = self@;
        let n = self.data.len();
        let mut k: usize = 0;
        while k < n
            invariant
                k <= n,
                self@.len() == n,
                n == orig.len(),
                forall|j: int| 0 <= j < k ==> self@[j] == 0u64,
            decreases n - k,
        {
            self.data[k] = 0u64;
            k = k + 1;
        }
        proof {
            assert(self@ =~= Seq::new(orig.len(), |j: int| 0u64));
        }
    }
}

/// `blocks_for(i + 1)` is exactly the word index of bit `i` plus one.
proof fn lemma_blocks_for_one(i: int)
    requires
        i >= 0,
    ensures
        blocks_for(i + 1) == i / 64 + 1,
{
    let w = i / 64;
    let m = i % 64;
    assert(i == 64 * w + m && 0 <= m < 64) by (nonlinear_arith)
        requires
            i >= 0 && w == i / 64 && m == i % 64,
    ;
    if m == 63 {
        assert((i + 1) % 64 == 0 && (i + 1) / 64 == w + 1) by (nonlinear_arith)
            requires
                i + 1 == 64 * (w + 1) && w >= 0,
        ;
    } else {
        assert((i + 1) % 64 == m + 1 && (i + 1) / 64 == w) by (nonlinear_arith)
            requires
                i + 1 == 64 * w + (m + 1) && 0 < m + 1 < 64 && w >= 0,
        ;
    }
}

/// `blocks_for(i + 64)` covers the window `[i, i + 64)`: one word past the
/// window's first word when aligned, two when the window straddles.
proof fn lemma_blocks_for_window(i: int)
    requires
        i >= 0,
    ensures
        i % 64 == 0 ==> blocks_for(i + 64) == i / 64 + 1,
        i % 64 != 0 ==> blocks_for(i + 64) == i / 64 + 2,
        blocks_for(i + 64) == blocks_for(i + 63 + 1),
{
    let w = i / 64;
    let m = i % 64;
    assert(i == 64 * w + m && 0 <= m < 64) by (nonlinear_arith)
        requires
            i >= 0 && w == i / 64 && m == i % 64,
    ;
    assert((i + 64) % 64 == m && (i + 64) / 64 == w + 1) by (nonlinear_arith)
        requires
            i + 64 == 64 * (w + 1) + m && 0 <= m < 64 && w >= 0,
    ;
}

/// Positions `i + k` inside a 64-bit window either stay in bit `i`'s word or
/// spill into the next one.
proof fn lemma_window_index(i: int, k: int)
    requires
        i >= 0,
        0 <= k < 64,
    ensures
        i % 64 + k < 64 ==> (i + k) / 64 == i / 64 && (i + k) % 64 == i % 64 + k,
        i % 64 + k >= 64 ==> (i + k) / 64 == i / 64 + 1 && (i + k) % 64 == i % 64 + k - 64,
{
    let w = i / 64;
    let m = i % 64;
    assert(i == 64 * w + m && 0 <= m < 64) by (nonlinear_arith)
        requires
            i >= 0 && w == i / 64 && m == i % 64,
    ;
    if m + k < 64 {
        assert((i + k) / 64 == w && (i + k) % 64 == m + k) by (nonlinear_arith)
            requires
                i + k == 64 * w + (m + k) && 0 <= m + k < 64 && w >= 0,
        ;
    } else {
        assert((i + k) / 64 == w + 1 && (i + k) % 64 == m + k - 64) by (nonlinear_arith)
            requires
                i + k == 64 * (w + 1) + (m + k - 64) && 0 <= m + k - 64 < 64 && w >= 0,
        ;
    }
}

/// A position strictly before bit `i` lies in an earlier word, or in the same
/// word at a strictly smaller within-word offset.
proof fn lemma_before_window(j: int, i: int)
    requires
        0 <= j < i,
    ensures
        j / 64 <= i / 64,
        j / 64 == i / 64 ==> j % 64 < i % 64,
{
    assert(j / 64 <= i / 64 && (j / 64 == i / 64 ==> j % 64 < i % 64)) by (nonlinear_arith)
        requires
            0 <= j < i && j == 64 * (j / 64) + j % 64 && i == 64 * (i / 64) + i % 64 && 0 <= j % 64
                < 64 && 0 <= i % 64 < 64,
    ;
}

/// A position at or past `i + 64` lies past bit `i`'s word, and reaches the
/// straddle word only at or above bit `i`'s within-word position.
proof fn lemma_after_window(j: int, i: int)
    requires
        i >= 0,
        j >= i + 64,
    ensures
        j / 64 >= i / 64 + 1,
        j / 64 == i / 64 + 1 ==> j % 64 >= i % 64,
{
    assert(j / 64 >= i / 64 + 1 && (j / 64 == i / 64 + 1 ==> j % 64 >= i % 64)) by (nonlinear_arith)
        requires
            i >= 0 && j >= i + 64 && j == 64 * (j / 64) + j % 64 && i == 64 * (i / 64) + i % 64 && 0
                <= j % 64 < 64 && 0 <= i % 64 < 64,
    ;
}

/// Bits of the word holding the high part of an unaligned block write.
proof fn lemma_cur_word_bits(x: u64, b: u64, m: u64, c: u64)
    by (bit_vector)
    requires
        1 <= m < 64,
        c < 64,
    ensures
        c >= 64 - m ==> word_bit((x & (!0u64 << ((64 - m) as u64))) | (b >> m), c) == word_bit(
            x,
            c,
        ),
        c < 64 - m ==> word_bit((x & (!0u64 << ((64 - m) as u64))) | (b >> m), c) == word_bit(
            b,
            (c + m) as u64,
        ),
{
}

/// Bits of the word holding the low part of an unaligned block write.
proof fn lemma_next_word_bits(y: u64, b: u64, m: u64, c: u64)
    by (bit_vector)
    requires
        1 <= m < 64,
        c < 64,
    ensures
        c >= 64 - m ==> word_bit((y & (!0u64 >> m)) | (b << ((64 - m) as u64)), c) == word_bit(
            b,
            (c - (64 - m)) as u64,
        ),
        c < 64 - m ==> word_bit((y & (!0u64 >> m)) | (b << ((64 - m) as u64)), c) == word_bit(y, c),
{
}

/// Bits of a block read that splices two adjacent words.
proof fn lemma_read_word_bits(x: u64, y: u64, m: u64, c: u64)
    by (bit_vector)
    requires
        1 <= m < 64,
        c < 64,
    ensures
        c >= m ==> word_bit((x << m) | (y >> ((64 - m) as u64)), c) == word_bit(x, (c - m) as u64),
        c < m ==> word_bit((x << m) | (y >> ((64 - m) as u64)), c) == word_bit(
            y,
            (c + (64 - m)) as u64,
        ),
        c >= m ==> word_bit(x << m, c) == word_bit(x, (c - m) as u64),
        c < m ==> !word_bit(x << m, c),
{
}

/// Setting or clearing one bit of a word leaves every other bit alone.
proof fn lemma_one_bit(x: u64, off: u64, c: u64)
    by (bit_vector)
    requires
        off < 64,
        c < 64,
    ensures
        word_bit(x | (1u64 << off), off),
        !word_bit(x & !(1u64 << off), off),
        c != off ==> word_bit(x | (1u64 << off), c) == word_bit(x, c),
        c != off ==> word_bit(x & !(1u64 << off), c) == word_bit(x, c),
{
}

/// The zero word has no bits set.
proof fn lemma_zero_word_bits(c: u64)
    by (bit_vector)
    ensures
        !word_bit(0u64, c),
{
}

/// Splicing a block into two adjacent words and reading the same window back
/// returns the block unchanged.
proof fn lemma_splice_round_trip(x: u64, y: u64, b: u64, m: u64)
    by (bit_vector)
    requires
        1 <= m < 64,
    ensures
        ((((x & (!0u64 << ((64 - m) as u64))) | (b >> m)) << m) | (((y & (!0u64 >> m)) | (b << ((64
            - m) as u64))) >> ((64 - m) as u64))) == b,
{
}

/// Growing the storage with zero words changes no stream bit.
pub proof fn lemma_grow_words_bits(words: Seq<u64>, n: int)
    ensures
        grow_words(words, n).len() == if words.len() >= n {
            words.len() as int
        } else {
            n
        },
        forall|j: int| 0 <= j ==> #[trigger] stream_bit(grow_words(words, n), j) == stream_bit(
            words,
            j,
        ),
{
    let g = grow_words(words, n);
    assert forall|j: int| 0 <= j implies #[trigger] stream_bit(g, j) == stream_bit(words, j) by {
        let w = j / 64;
        lemma_window_index(j, 0);
        if w < words.len() {
            assert(g[w] == words[w]);
        } else if w < g.len() {
            lemma_zero_word_bits((63 - (j % 64)) as u64);
        }
    }
}

/// An append-only cursor over a [`BitVec`]: `len` is the next bit position to
/// be written, and every write goes through the cursor.
pub struct AppendOnlyBitVec {
    vec: BitVec,
    len: usize,
}

impl View for AppendOnlyBitVec {
    type V = AppendView;

    closed spec fn view(&self) -> AppendView {
        AppendView { words: self.vec@, len: self.len as nat }
    }
}

impl AppendOnlyBitVec {
    pub fn new() -> (r: AppendOnlyBitVec)
        ensures
            r@.words == Seq::<u64>::empty(),
            r@.len == 0,
    {
        AppendOnlyBitVec { vec: BitVec::new(), len: 0 }
    }

    pub fn with_capacity(nbits: usize) -> (r: AppendOnlyBitVec)
        ensures
            r@.words == Seq::<u64>::empty(),
            r@.len == 0,
    {
        AppendOnlyBitVec { vec: BitVec::with_capacity(nbits), len: 0 }
    }

    /// Read bit `index` of the stream; bits beyond the storage read as zero.
    pub fn get_bit(&self, index: usize) -> (r: bool)
        requires
            index < usize::MAX,
        ensures
            r == stream_bit(self@.words, index as int),
    {
        self.vec.get_bit(index)
    }

    /// Read the 64 bits starting at `index`, most-significant bit first.
    pub fn get_block(&self, index: usize) -> (r: u64)
        requires
            index < usize::MAX,
        ensures
            r == stream_block(self@.words, index as int),
    {
        self.vec.get_block(index)
    }

    /// The stored words, in order; the stream is their concatenation,
    /// most-significant bit of each word first.
    pub fn data(&self) -> (r: &Vec<u64>)
        ensures
            r@ == self@.words,
    {
        &self.vec.data
    }

    /// The cursor: the number of bits appended so far.
    pub fn len(&self) -> (r: usize)
        ensures
            r == self@.len,
    {
        self.len
    }

    /// Append `bits` bits taken from `data`, advancing the cursor by `bits`.
    ///
    /// One bit is written as the low bit of `data` and 64 bits as all of
    /// `data`; for any width in between the low `bits` bits of `data` are
    /// written as a block in which they sit one position below the top, so the
    /// stream gains a zero bit followed by the high `bits - 1` of them.
    pub fn append(&mut self, bits: usize, data: u64)
        requires
            bits <= 64,
            old(self)@.len + 64 <= usize::MAX,
        ensures
            final(self)@ == append_model(old(self)@, bits as int, data),
    {
        match bits {
            0 => {},
            1 => {
                self.vec.set_bit(self.len, data & 1 == 1);
                self.len = self.len + 1;
            },
            64 => {
                self.vec.set_block(self.len, data);
                self.len = self.len + 64;
            },
            _ => {
                let mask = !0u64 >> ((64 - bits) as u64);
                let aligned = (data & mask) << ((63 - bits) as u64);
                self.vec.set_block(self.len, aligned);
                self.len = self.len + bits;
            },
        }
        proof {
            assert(self@ =~= append_model(old(self)@, bits as int, data));
        }
    }

    /// Append the low `bits` bits of `data`, most-significant of them first,
    /// advancing the cursor by `bits`. This is the exact-alignment primitive
    /// the block encoder emits through.
    pub fn push_bits(&mut self, bits: usize, data: u64)
        requires
            1 <= bits <= 64,
            old(self)@.len + 64 <= usize::MAX,
        ensures
            final(self)@ == push_model(old(self)@, bits as int, data),
    {
        match bits {
            1 => {
                self.vec.set_bit(self.len, data & 1 == 1);
                self.len = self.len + 1;
            },
            64 => {
                self.vec.set_block(self.len, data);
                self.len = self.len + 64;
            },
            _ => {
                let mask = !0u64 >> ((64 - bits) as u64);
                let aligned = (data & mask) << ((64 - bits) as u64);
                self.vec.set_block(self.len, aligned);
                self.len = self.len + bits;
            },
        }
        proof {
            assert(self@ =~= push_model(old(self)@, bits as int, data));
        }
    }
}

/// Division and remainder by the word size recombine to the index.
proof fn lemma_div_mod64(j: int)
    requires
        j >= 0,
    ensures
        j == 64 * (j / 64) + j % 64,
        0 <= j % 64 < 64,
{
    assert(j == 64 * (j / 64) + j % 64 && 0 <= j % 64 < 64) by (nonlinear_arith)
        requires
            j >= 0,
    ;
}

/// Shifting the zero word gives the zero word.
proof fn lemma_zero_word_shift(m: u64)
    by (bit_vector)
    requires
        1 <= m < 64,
    ensures
        (0u64 << m) | (0u64 >> ((64 - m) as u64)) == 0u64,
        (0u64 << m) == 0u64,
{
}

/// Bit round-trip: writing bit `i` makes that bit read back as written and
/// leaves every other bit of the stream unchanged.
pub proof fn lemma_set_bit_round_trip(words: Seq<u64>, i: int, v: bool)
    requires
        i >= 0,
    ensures
        stream_bit(set_bit_words(words, i, v), i) == v,
        forall|j: int|
            0 <= j && j != i ==> #[trigger] stream_bit(set_bit_words(words, i, v), j) == stream_bit(
                words,
                j,
            ),
{
    let r = set_bit_words(words, i, v);
    let g = grow_words(words, blocks_for(i + 1));
    let w = i / 64;
    let m = i % 64;
    let off = (63 - m) as u64;
    lemma_blocks_for_one(i);
    lemma_grow_words_bits(words, blocks_for(i + 1));
    lemma_div_mod64(i);
    lemma_one_bit(g[w], off, off);
    assert forall|j: int| 0 <= j && j != i implies #[trigger] stream_bit(r, j) == stream_bit(
        words,
        j,
    ) by {
        lemma_div_mod64(j);
        if j / 64 == w {
            let c = (63 - (j % 64)) as u64;
            lemma_one_bit(g[w], off, c);
        }
        assert(stream_bit(r, j) == stream_bit(g, j));
        assert(stream_bit(g, j) == stream_bit(words, j));
    }
}

/// Block round-trip: writing the window `[i, i + 64)` makes each window bit
/// read back as the corresponding bit of `b`, reassembles to exactly `b`, and
/// leaves every bit outside the window unchanged.
pub proof fn lemma_set_block_round_trip(words: Seq<u64>, i: int, b: u64)
    requires
        i >= 0,
    ensures
        stream_block(set_block_words(words, i, b), i) == b,
        forall|k: int|
            0 <= k < 64 ==> #[trigger] stream_bit(set_block_words(words, i, b), i + k) == block_bit(
                b,
                k,
            ),
        forall|j: int|
            0 <= j < i ==> #[trigger] stream_bit(set_block_words(words, i, b), j) == stream_bit(
                words,
                j,
            ),
        forall|j: int|
            j >= i + 64 ==> #[trigger] stream_bit(set_block_words(words, i, b), j) == stream_bit(
                words,
                j,
            ),
{
    let r = set_block_words(words, i, b);
    let g = grow_words(words, blocks_for(i + 64));
    let w = i / 64;
    let m = i % 64;
    lemma_blocks_for_window(i);
    lemma_grow_words_bits(words, blocks_for(i + 64));
    lemma_div_mod64(i);
    if m == 0 {
        assert forall|k: int| 0 <= k < 64 implies #[trigger] stream_bit(r, i + k) == block_bit(
            b,
            k,
        ) by {
            lemma_window_index(i, k);
        }
        assert forall|j: int| 0 <= j < i implies #[trigger] stream_bit(r, j) == stream_bit(
            words,
            j,
        ) by {
            lemma_div_mod64(j);
            lemma_before_window(j, i);
            assert(stream_bit(r, j) == stream_bit(g, j));
            assert(stream_bit(g, j) == stream_bit(words, j));
        }
        assert forall|j: int| j >= i + 64 implies #[trigger] stream_bit(r, j) == stream_bit(
            words,
            j,
        ) by {
            lemma_div_mod64(j);
            lemma_after_window(j, i);
            assert(stream_bit(r, j) == stream_bit(g, j));
            assert(stream_bit(g, j) == stream_bit(words, j));
        }
    } else {
        let cur = (g[w] & (!0u64 << ((64 - m) as u64))) | (b >> (m as u64));
        let nxt = (g[w + 1] & (!0u64 >> (m as u64))) | (b << ((64 - m) as u64));
        assert(r == g.update(w, cur).update(w + 1, nxt));
        assert forall|k: int| 0 <= k < 64 implies #[trigger] stream_bit(r, i + k) == block_bit(
            b,
            k,
        ) by {
            lemma_window_index(i, k);
            if m + k < 64 {
                let c = (63 - (m + k)) as u64;
                lemma_cur_word_bits(g[w], b, m as u64, c);
            } else {
                let c = (63 - (m + k - 64)) as u64;
                lemma_next_word_bits(g[w + 1], b, m as u64, c);
            }
        }
        assert forall|j: int| 0 <= j < i implies #[trigger] stream_bit(r, j) == stream_bit(
            words,
            j,
        ) by {
            lemma_div_mod64(j);
            lemma_before_window(j, i);
            if j / 64 == w {
                let c = (63 - (j % 64)) as u64;
                lemma_cur_word_bits(g[w], b, m as u64, c);
            }
            assert(stream_bit(r, j) == stream_bit(g, j));
            assert(stream_bit(g, j) == stream_bit(words, j));
        }
        assert forall|j: int| j >= i + 64 implies #[trigger] stream_bit(r, j) == stream_bit(
            words,
            j,
        ) by {
            lemma_div_mod64(j);
            lemma_after_window(j, i);
            if j / 64 == w + 1 {
                let c = (63 - (j % 64)) as u64;
                lemma_next_word_bits(g[w + 1], b, m as u64, c);
            }
            assert(stream_bit(r, j) == stream_bit(g, j));
            assert(stream_bit(g, j) == stream_bit(words, j));
        }
        lemma_splice_round_trip(g[w], g[w + 1], b, m as u64);
    }
}

/// Aligned/unaligned equivalence: a block read at `i` is exactly the stream
/// bits `i`, `i + 1`, ..., `i + 63`, most-significant bit first.
pub proof fn lemma_stream_block_bits(words: Seq<u64>, i: int)
    requires
        i >= 0,
    ensures
        forall|k: int|
            0 <= k < 64 ==> #[trigger] block_bit(stream_block(words, i), k) == stream_bit(
                words,
                i + k,
            ),
{
    let r = stream_block(words, i);
    let w = i / 64;
    let m = i % 64;
    lemma_div_mod64(i);
    assert forall|k: int| 0 <= k < 64 implies #[trigger] block_bit(r, k) == stream_bit(
        words,
        i + k,
    ) by {
        lemma_window_index(i, k);
        let c = (63 - k) as u64;
        if w >= words.len() {
            lemma_zero_word_bits(c);
        } else if m == 0 {
        } else {
            if w + 1 >= words.len() {
                lemma_read_word_bits(words[w], 0u64, m as u64, c);
            } else {
                lemma_read_word_bits(words[w], words[w + 1], m as u64, c);
            }
        }
    }
}

/// A storage of zero words reads as zero everywhere, bit-wise and block-wise.
pub proof fn lemma_zero_words_read_zero(words: Seq<u64>)
    requires
        forall|t: int| 0 <= t < words.len() ==> words[t] == 0u64,
    ensures
        forall|i: int| 0 <= i ==> !#[trigger] stream_bit(words, i),
        forall|i: int| 0 <= i ==> #[trigger] stream_block(words, i) == 0u64,
{
    assert forall|i: int| 0 <= i implies !#[trigger] stream_bit(words, i) by {
        lemma_div_mod64(i);
        lemma_zero_word_bits((63 - (i % 64)) as u64);
    }
    assert forall|i: int| 0 <= i implies #[trigger] stream_block(words, i) == 0u64 by {
        lemma_div_mod64(i);
        let m = i % 64;
        if i / 64 < words.len() && m != 0 {
            lemma_zero_word_shift(m as u64);
        }
    }
}

/// Bits of a low-justified field left-aligned to the top of a block.
proof fn lemma_align_low_bits(d: u64, n: u64, c: u64)
    by (bit_vector)
    requires
        2 <= n <= 63,
        c < 64,
    ensures
        c >= 64 - n ==> word_bit((d & (!0u64 >> ((64 - n) as u64))) << ((64 - n) as u64), c)
            == word_bit(d, (c - (64 - n)) as u64),
        c < 64 - n ==> !word_bit((d & (!0u64 >> ((64 - n) as u64))) << ((64 - n) as u64), c),
{
}

/// A field of zeros stays zero when shifted into place below the block top.
proof fn lemma_align_masked_zero(d: u64, n: u64)
    by (bit_vector)
    requires
        2 <= n <= 63,
        (d & (!0u64 >> ((64 - n) as u64))) == 0,
    ensures
        ((d & (!0u64 >> ((64 - n) as u64))) << ((63 - n) as u64)) == 0,
{
}

/// A value whose low `n` bits are all zero has no set bit below `n`.
proof fn lemma_masked_zero_bits(d: u64, n: u64, e: u64)
    by (bit_vector)
    requires
        2 <= n <= 63,
        e < n,
        (d & (!0u64 >> ((64 - n) as u64))) == 0,
    ensures
        !word_bit(d, e),
{
}

/// Append correctness for the exact-alignment primitive: after
/// `push_bits(bits, data)` the `bits` stream positions starting at the old
/// cursor hold the low `bits` bits of `data`, most-significant of them first,
/// the cursor advances by `bits`, and no bit below the old cursor changes.
pub proof fn lemma_push_bits_correct(m: AppendView, bits: int, data: u64)
    requires
        1 <= bits <= 64,
    ensures
        push_model(m, bits, data).len == m.len + bits,
        forall|k: int|
            0 <= k < bits ==> #[trigger] stream_bit(push_model(m, bits, data).words, m.len + k)
                == word_bit(data, (bits - 1 - k) as u64),
        forall|j: int|
            0 <= j < m.len ==> #[trigger] stream_bit(push_model(m, bits, data).words, j)
                == stream_bit(m.words, j),
{
    let r = push_model(m, bits, data);
    let i = m.len as int;
    if bits == 1 {
        lemma_set_bit_round_trip(m.words, i, data & 1 == 1);
        assert(word_bit(data, 0) == (data & 1 == 1)) by (bit_vector);
    } else if bits == 64 {
        lemma_set_block_round_trip(m.words, i, data);
        assert forall|k: int| 0 <= k < bits implies #[trigger] stream_bit(r.words, m.len + k)
            == word_bit(data, (bits - 1 - k) as u64) by {
            assert(stream_bit(r.words, i + k) == block_bit(data, k));
        }
    } else {
        let aligned = (data & (!0u64 >> ((64 - bits) as u64))) << ((64 - bits) as u64);
        lemma_set_block_round_trip(m.words, i, aligned);
        assert forall|k: int| 0 <= k < bits implies #[trigger] stream_bit(r.words, m.len + k)
            == word_bit(data, (bits - 1 - k) as u64) by {
            assert(stream_bit(r.words, i + k) == block_bit(aligned, k));
            lemma_align_low_bits(data, bits as u64, (63 - k) as u64);
        }
    }
}

/// Append correctness for `append`, on the widths where its block is aligned
/// the way the law asks: a single bit, a full word, or a field whose written
/// bits are all zero. (For other widths `append` places the field one position
/// below the top of its block; see its doc comment.)
pub proof fn lemma_append_low_bits(m: AppendView, bits: int, data: u64)
    requires
        0 <= bits <= 64,
        bits <= 1 || bits == 64 || (data & (!0u64 >> ((64 - bits) as u64))) == 0,
    ensures
        append_model(m, bits, data).len == m.len + bits,
        forall|k: int|
            0 <= k < bits ==> #[trigger] stream_bit(append_model(m, bits, data).words, m.len + k)
                == word_bit(data, (bits - 1 - k) as u64),
        forall|j: int|
            0 <= j < m.len ==> #[trigger] stream_bit(append_model(m, bits, data).words, j)
                == stream_bit(m.words, j),
{
    let r = append_model(m, bits, data);
    let i = m.len as int;
    if bits == 0 {
    } else if bits == 1 {
        lemma_set_bit_round_trip(m.words, i, data & 1 == 1);
        assert(word_bit(data, 0) == (data & 1 == 1)) by (bit_vector);
    } else if bits == 64 {
        lemma_set_block_round_trip(m.words, i, data);
        assert forall|k: int| 0 <= k < bits implies #[trigger] stream_bit(r.words, m.len + k)
            == word_bit(data, (bits - 1 - k) as u64) by {
            assert(stream_bit(r.words, i + k) == block_bit(data, k));
        }
    } else {
        let aligned = (data & (!0u64 >> ((64 - bits) as u64))) << ((63 - bits) as u64);
        lemma_align_masked_zero(data, bits as u64);
        assert(aligned == 0);
        lemma_set_block_round_trip(m.words, i, aligned);
        assert forall|k: int| 0 <= k < bits implies #[trigger] stream_bit(r.words, m.len + k)
            == word_bit(data, (bits - 1 - k) as u64) by {
            assert(stream_bit(r.words, i + k) == block_bit(aligned, k));
            lemma_zero_word_bits((63 - k) as u64);
            lemma_masked_zero_bits(data, bits as u64, (bits - 1 - k) as u64);
        }
    }
}

} // verus!
