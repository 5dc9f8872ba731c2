pub mod hash;

use vstd::prelude::*;

use crate::error::{EngineError, Result};
use crate::format::{
    lemma_le_round_trip, take_error, u32_at, u32_le, u64_at, u64_le, Decoder, Encoder,
};
use crate::storage::bloom::hash::{xxh3_64, HashFunc, XxHash3Impl};

verus! {

/// Magic number that opens an encoded Bloom filter.
pub const BLOOM_MAGIC: u64 = 13794972908406357291;

/// Number of 64-bit words that hold `size` bits.
pub open spec fn words_for(size: u64) -> nat {
    ((size as nat + 63) / 64) as nat
}

/// Number of bytes that hold `size` bits.
pub open spec fn bytes_for(size: u64) -> nat {
    ((size as nat + 7) / 8) as nat
}

/// Whether bit `p` of a bitset is set.
pub open spec fn has_bit(words: Seq<u64>, p: int) -> bool {
    words[p / 64] & (1u64 << ((p % 64) as u64)) != 0
}

/// The bit that member `m` selects under the hash function seeded with `seed`.
pub open spec fn position(seed: u64, size: u64, m: Seq<u8>) -> int {
    (xxh3_64(seed, m) % size) as int
}

/// The contents of a Bloom filter: the number of bits, the seeds of its hash
/// functions, and the words that hold the bits.
pub struct BloomView {
    pub size: u64,
    pub seeds: Seq<u64>,
    pub words: Seq<u64>,
}

impl BloomView {
    /// The bitset has one word per 64 bits, and no bit past the bytes that
    /// an encoding holds is set.
    pub open spec fn wf(self) -> bool {
        &&& self.words.len() == words_for(self.size)
        &&& forall|p: int| 8 * bytes_for(self.size) <= p < 64 * self.words.len() ==> !#[trigger] has_bit(self.words, p)
    }

    /// Members can be hashed to a bit: the filter has bits, or no hash
    /// function to select one.
    pub open spec fn hashable(self) -> bool {
        self.size > 0 || self.seeds.len() == 0
    }

    /// Every hash function selects a set bit for `m`.
    pub open spec fn contains(self, m: Seq<u8>) -> bool {
        forall|j: int| 0 <= j < self.seeds.len() ==> has_bit(self.words, #[trigger] position(self.seeds[j], self.size, m))
    }

    /// `after` is `self` with the bits that `m` selects set.
    pub open spec fn added(self, after: BloomView, m: Seq<u8>) -> bool {
        &&& after.size == self.size
        &&& after.seeds == self.seeds
        &&& after.words.len() == self.words.len()
        &&& forall|p: int| 0 <= p < 64 * self.words.len() ==> #[trigger] has_bit(after.words, p) == (has_bit(self.words, p) || exists|j: int| 0 <= j < self.seeds.len() && p == position(self.seeds[j], self.size, m))
    }
}

/// A Bloom filter never forgets: after adding a member it contains the
/// member, and every member it contained before it still contains.
pub proof fn lemma_bloom_no_false_negatives(before: BloomView, after: BloomView, m: Seq<u8>, other: Seq<u8>)
    requires
        before.wf(),
        before.hashable(),
        before.added(after, m),
    ensures
        after.contains(m),
        before.contains(other) ==> after.contains(other),
{
    assert forall|j: int| 0 <= j < after.seeds.len() implies has_bit(after.words, #[trigger] position(after.seeds[j], after.size, m)) by {
        let p = position(after.seeds[j], after.size, m);
        assert(0 <= p < before.size);
        assert(before.size <= 64 * before.words.len());
    }
    if before.contains(other) {
        assert forall|j: int| 0 <= j < after.seeds.len() implies has_bit(after.words, #[trigger] position(after.seeds[j], after.size, other)) by {
            let p = position(after.seeds[j], after.size, other);
            assert(has_bit(before.words, position(before.seeds[j], before.size, other)));
            assert(0 <= p < before.size);
        }
    }
}

/// Setting bit `b` of a word sets it and leaves the other bits.
proof fn lemma_set_bit(w: u64, b: u64, c: u64)
    requires
        b < 64,
        c < 64,
    ensures
        (w | (1u64 << b)) & (1u64 << b) != 0,
        b != c ==> (((w | (1u64 << b)) & (1u64 << c) != 0) == (w & (1u64 << c) != 0)),
{
    assert((w | (1u64 << b)) & (1u64 << b) != 0) by (bit_vector)
        requires
            b < 64,
    ;
    assert(b != c ==> (((w | (1u64 << b)) & (1u64 << c) != 0) == (w & (1u64 << c) != 0))) by (bit_vector)
        requires
            b < 64,
            c < 64,
    ;
}

/// The little-endian bytes of each seed, one after the other.
pub open spec fn seeds_bytes(seeds: Seq<u64>) -> Seq<u8>
    decreases seeds.len(),
{
    if seeds.len() == 0 {
        Seq::empty()
    } else {
        seeds_bytes(seeds.drop_last()) + u64_le(seeds.last())
    }
}

/// Byte `i` of a bitset: byte `i % 8`, least significant first, of word
/// `i / 8`.
pub open spec fn bitmap_byte(words: Seq<u64>, i: int) -> u8 {
    (words[i / 8] >> ((i % 8) * 8) as u64) as u8
}

/// The first `n` bytes of a bitset.
pub open spec fn bitmap_bytes(words: Seq<u64>, n: nat) -> Seq<u8> {
    Seq::new(n, |i: int| bitmap_byte(words, i))
}

/// Byte `i` of `bytes`, or zero past their end.
pub open spec fn byte_or_zero(bytes: Seq<u8>, i: int) -> u8 {
    if 0 <= i < bytes.len() {
        bytes[i]
    } else {
        0
    }
}

/// The word whose bytes, least significant first, are `b0` to `b7`.
pub open spec fn word_of_bytes(b0: u8, b1: u8, b2: u8, b3: u8, b4: u8, b5: u8, b6: u8, b7: u8) -> u64 {
    (b0 as u64) | ((b1 as u64) << 8u64) | ((b2 as u64) << 16u64) | ((b3 as u64) << 24u64) | ((b4 as u64) << 32u64) | ((b5 as u64) << 40u64) | ((b6 as u64) << 48u64) | ((b7 as u64) << 56u64)
}

/// Word `w` of the bitset that `bytes` spell, bytes past their end being
/// zero.
pub open spec fn assembled_word(bytes: Seq<u8>, w: int) -> u64 {
    word_of_bytes(
        byte_or_zero(bytes, 8 * w),
        byte_or_zero(bytes, 8 * w + 1),
        byte_or_zero(bytes, 8 * w + 2),
        byte_or_zero(bytes, 8 * w + 3),
        byte_or_zero(bytes, 8 * w + 4),
        byte_or_zero(bytes, 8 * w + 5),
        byte_or_zero(bytes, 8 * w + 6),
        byte_or_zero(bytes, 8 * w + 7),
    )
}

/// The `n` words that `bytes` spell.
pub open spec fn words_from_bitmap(bytes: Seq<u8>, n: nat) -> Seq<u64> {
    Seq::new(n, |w: int| assembled_word(bytes, w))
}

/// The encoding of a filter: magic, size, number of hash functions, their
/// seeds, then the bytes of the bitset that hold `size` bits.
pub open spec fn bloom_bytes(v: BloomView) -> Seq<u8> {
    u64_le(BLOOM_MAGIC) + u64_le(v.size) + u32_le(v.seeds.len() as u32) + seeds_bytes(v.seeds)
        + bitmap_bytes(v.words, bytes_for(v.size))
}

/// What decoding `s` gives: the filter it encodes, or the first fault.
pub open spec fn parse_bloom(s: Seq<u8>) -> Result<BloomView> {
    if s.len() < 8 {
        Err(take_error(0, 8))
    } else if u64_at(s, 0) != BLOOM_MAGIC {
        Err(EngineError::CorruptBloomFilter("invalid magic"))
    } else if s.len() < 16 {
        Err(take_error(8, 8))
    } else if u64_at(s, 8) == 0 {
        Err(EngineError::CorruptBloomFilter("zero-sized filter"))
    } else if s.len() < 20 {
        Err(take_error(16, 4))
    } else if u32_at(s, 16) == 0 {
        Err(EngineError::CorruptBloomFilter("no hash functions"))
    } else if s.len() < 20 + 8 * u32_at(s, 16) {
        Err(take_error(20 + 8 * ((s.len() - 20) / 8), 8))
    } else if s.len() - (20 + 8 * u32_at(s, 16)) != bytes_for(u64_at(s, 8)) {
        Err(EngineError::CorruptBloomFilter("unexpected bitset length"))
    } else {
        let size = u64_at(s, 8);
        let count = u32_at(s, 16);
        Ok(
            BloomView {
                size,
                seeds: Seq::new(count as nat, |j: int| u64_at(s, 20 + 8 * j)),
                words: words_from_bitmap(s.subrange(20 + 8 * count, s.len() as int), words_for(size)),
            },
        )
    }
}

/// The seeds' bytes have eight per seed, and each seed reads back at its
/// offset.
proof fn lemma_seeds_bytes(seeds: Seq<u64>)
    ensures
        seeds_bytes(seeds).len() == 8 * seeds.len(),
        forall|j: int| 0 <= j < seeds.len() ==> #[trigger] u64_at(seeds_bytes(seeds), 8 * j) == seeds[j],
    decreases seeds.len(),
{
    lemma_le_round_trip();
    if seeds.len() > 0 {
        let init = seeds.drop_last();
        lemma_seeds_bytes(init);
        let a = seeds_bytes(init);
        let l = u64_le(seeds.last());
        assert forall|j: int| 0 <= j < seeds.len() implies #[trigger] u64_at(seeds_bytes(seeds), 8 * j) == seeds[j] by {
            assert(seeds_bytes(seeds) == a + l);
            if j < init.len() {
                assert((a + l).subrange(8 * j, 8 * j + 8) =~= a.subrange(8 * j, 8 * j + 8));
                assert(u64_at(a, 8 * j) == init[j]);
                assert(init[j] == seeds[j]);
            } else {
                assert((a + l).subrange(8 * j, 8 * j + 8) =~= l.subrange(0, 8));
                assert(u64_at(l, 0) == seeds.last());
            }
        }
    }
}

/// A word is the word its eight bytes spell.
proof fn lemma_word_of_bytes(x: u64)
    ensures
        word_of_bytes(
            (x >> 0u64) as u8,
            (x >> 8u64) as u8,
            (x >> 16u64) as u8,
            (x >> 24u64) as u8,
            (x >> 32u64) as u8,
            (x >> 40u64) as u8,
            (x >> 48u64) as u8,
            (x >> 56u64) as u8,
        ) == x,
{
    assert(word_of_bytes(
        (x >> 0u64) as u8,
        (x >> 8u64) as u8,
        (x >> 16u64) as u8,
        (x >> 24u64) as u8,
        (x >> 32u64) as u8,
        (x >> 40u64) as u8,
        (x >> 48u64) as u8,
        (x >> 56u64) as u8,
    ) == x) by (bit_vector);
}

/// A byte of a word is zero when none of its eight bits is set.
proof fn lemma_clear_byte(x: u64, k: u64)
    requires
        k < 8,
        x & (1u64 << (8 * k)) == 0,
        x & (1u64 << (8 * k + 1)) == 0,
        x & (1u64 << (8 * k + 2)) == 0,
        x & (1u64 << (8 * k + 3)) == 0,
        x & (1u64 << (8 * k + 4)) == 0,
        x & (1u64 << (8 * k + 5)) == 0,
        x & (1u64 << (8 * k + 6)) == 0,
        x & (1u64 << (8 * k + 7)) == 0,
    ensures
        (x >> (k * 8)) as u8 == 0,
{
    assert((x >> (k * 8)) as u8 == 0) by (bit_vector)
        requires
            k < 8,
            x & (1u64 << (8 * k)) == 0,
            x & (1u64 << (8 * k + 1)) == 0,
            x & (1u64 << (8 * k + 2)) == 0,
            x & (1u64 << (8 * k + 3)) == 0,
            x & (1u64 << (8 * k + 4)) == 0,
            x & (1u64 << (8 * k + 5)) == 0,
            x & (1u64 << (8 * k + 6)) == 0,
            x & (1u64 << (8 * k + 7)) == 0,
    ;
}

/// In a well-formed filter, bit `c` of byte `k` of word `w` is clear when
/// the byte lies past the encoded bytes.
proof fn lemma_clear_bit(v: BloomView, w: int, k: int, c: int)
    requires
        v.wf(),
        0 <= w < v.words.len(),
        0 <= k < 8,
        0 <= c < 8,
        8 * w + k >= bytes_for(v.size),
    ensures
        v.words[w] & (1u64 << (8 * (k as u64) + c) as u64) == 0,
{
    let p = 64 * w + 8 * k + c;
    assert(p / 64 == w && p % 64 == 8 * k + c) by (nonlinear_arith)
        requires
            p == 64 * w + 8 * k + c,
            0 <= k < 8,
            0 <= c < 8,
    ;
    assert(p < 64 * v.words.len()) by (nonlinear_arith)
        requires
            p == 64 * w + 8 * k + c,
            0 <= w < v.words.len(),
            0 <= k < 8,
            0 <= c < 8,
    ;
    assert(!has_bit(v.words, p));
}

/// Byte `k` of word `w` in the encoded bitmap of a well-formed filter is
/// byte `k` of the word, or zero past the encoded bytes where the word's
/// bits are clear.
proof fn lemma_bitmap_byte(v: BloomView, w: int, k: int)
    requires
        v.wf(),
        0 <= w < v.words.len(),
        0 <= k < 8,
    ensures
        byte_or_zero(bitmap_bytes(v.words, bytes_for(v.size)), 8 * w + k) == (v.words[w] >> (k * 8) as u64) as u8,
{
    let nb = bytes_for(v.size);
    let i = 8 * w + k;
    assert(i / 8 == w && i % 8 == k) by (nonlinear_arith)
        requires
            i == 8 * w + k,
            0 <= k < 8,
    ;
    if i >= nb {
        let x = v.words[w];
        let kk = k as u64;
        lemma_clear_bit(v, w, k, 0);
        lemma_clear_bit(v, w, k, 1);
        lemma_clear_bit(v, w, k, 2);
        lemma_clear_bit(v, w, k, 3);
        lemma_clear_bit(v, w, k, 4);
        lemma_clear_bit(v, w, k, 5);
        lemma_clear_bit(v, w, k, 6);
        lemma_clear_bit(v, w, k, 7);
        assert(x & (1u64 << (8 * kk + 0) as u64) == 0);
        assert(x & (1u64 << (8 * kk + 1) as u64) == 0);
        assert(x & (1u64 << (8 * kk + 2) as u64) == 0);
        assert(x & (1u64 << (8 * kk + 3) as u64) == 0);
        assert(x & (1u64 << (8 * kk + 4) as u64) == 0);
        assert(x & (1u64 << (8 * kk + 5) as u64) == 0);
        assert(x & (1u64 << (8 * kk + 6) as u64) == 0);
        assert(x & (1u64 << (8 * kk + 7) as u64) == 0);
        lemma_clear_byte(x, kk);
    }
}

/// Decoding the encoded bitmap of a well-formed filter gives back its words.
proof fn lemma_bitmap_round_trip(v: BloomView)
    requires
        v.wf(),
    ensures
        words_from_bitmap(bitmap_bytes(v.words, bytes_for(v.size)), words_for(v.size)) == v.words,
{
    let bm = bitmap_bytes(v.words, bytes_for(v.size));
    assert forall|w: int| 0 <= w < v.words.len() implies #[trigger] assembled_word(bm, w) == v.words[w] by {
        lemma_bitmap_byte(v, w, 0);
        lemma_bitmap_byte(v, w, 1);
        lemma_bitmap_byte(v, w, 2);
        lemma_bitmap_byte(v, w, 3);
        lemma_bitmap_byte(v, w, 4);
        lemma_bitmap_byte(v, w, 5);
        lemma_bitmap_byte(v, w, 6);
        lemma_bitmap_byte(v, w, 7);
        lemma_word_of_bytes(v.words[w]);
    }
    assert(words_from_bitmap(bm, words_for(v.size)) =~= v.words);
}

/// Decoding the encoding of a filter gives the filter back, whenever the
/// decoder accepts such a filter at all: it has bits, at least one hash
/// function, and no more than its 32-bit count can hold.
pub proof fn lemma_bloom_round_trip(v: BloomView)
    requires
        v.wf(),
        v.size > 0,
        0 < v.seeds.len() <= u32::MAX,
    ensures
        parse_bloom(bloom_bytes(v)) == Ok::<BloomView, EngineError>(v),
{
    let s = bloom_bytes(v);
    let count = v.seeds.len() as u32;
    let h0 = u64_le(BLOOM_MAGIC);
    let h1 = u64_le(v.size);
    let h2 = u32_le(count);
    let sb = seeds_bytes(v.seeds);
    let bm = bitmap_bytes(v.words, bytes_for(v.size));
    lemma_le_round_trip();
    lemma_seeds_bytes(v.seeds);
    assert(s == h0 + h1 + h2 + sb + bm);
    assert(s.subrange(0, 8) =~= h0.subrange(0, 8));
    assert(s.subrange(8, 16) =~= h1.subrange(0, 8));
    assert(s.subrange(16, 20) =~= h2.subrange(0, 4));
    assert(u64_at(s, 0) == BLOOM_MAGIC);
    assert(u64_at(s, 8) == v.size);
    assert(u32_at(s, 16) == count);
    assert(s.len() == 20 + 8 * count + bytes_for(v.size));
    assert(s.subrange(20 + 8 * count, s.len() as int) =~= bm);
    let seeds = Seq::new(count as nat, |j: int| u64_at(s, 20 + 8 * j));
    assert forall|j: int| 0 <= j < count implies #[trigger] seeds[j] == v.seeds[j] by {
        assert(s.subrange(20 + 8 * j, 20 + 8 * j + 8) =~= sb.subrange(8 * j, 8 * j + 8));
        assert(u64_at(sb, 8 * j) == v.seeds[j]);
    }
    assert(seeds =~= v.seeds);
    lemma_bitmap_round_trip(v);
}

/// A Bloom filter over `size` bits with a set of seeded hash functions.
#[derive(Debug)]
pub struct BloomFilter {
    bitset: Vec<u64>,
    size: u64,
    hashes: Vec<XxHash3Impl>,
}

impl View for BloomFilter {
    type V = BloomView;

    closed spec fn view(&self) -> BloomView {
        BloomView {
            size: self.size,
            seeds: Seq::new(self.hashes@.len(), |i: int| self.hashes@[i].hash_seed()),
            words: self.bitset@,
        }
    }
}

/// Number of 64-bit words that hold `size` bits.
fn word_count(size: u64) -> (r: u64)
    ensures
        r == words_for(size),
{
    size / 64 + if size % 64 == 0 {
        0
    } else {
        1
    }
}

/// A vector of `n` zero words.
fn zero_words(n: usize) -> (r: Vec<u64>)
    ensures
        r@ == Seq::new(n as nat, |i: int| 0u64),
{
    let mut v: Vec<u64> = Vec::new();
    let mut i: usize = 0;
    while i < n
        invariant
            i <= n,
            v@ =~= Seq::new(i as nat, |k: int| 0u64),
        decreases n - i,
    {
        v.push(0);
        i = i + 1;
    }
    v
}

/// No bit of a zero bitset is set.
proof fn lemma_zero_words(words: Seq<u64>)
    requires
        forall|i: int| 0 <= i < words.len() ==> words[i] == 0,
    ensures
        forall|p: int| 0 <= p < 64 * words.len() ==> !#[trigger] has_bit(words, p),
{
    assert forall|p: int| 0 <= p < 64 * words.len() implies !#[trigger] has_bit(words, p) by {
        let b = (p % 64) as u64;
        assert(words[p / 64] == 0);
        assert(0u64 & (1u64 << b) == 0) by (bit_vector);
    }
}

/// A bit of a word lies in a byte that is zero is clear.
proof fn lemma_zero_byte_bit(b0: u8, b1: u8, b2: u8, b3: u8, b4: u8, b5: u8, b6: u8, b7: u8, k: u64, c: u64)
    requires
        k < 8,
        c < 8,
        k == 0 ==> b0 == 0,
        k == 1 ==> b1 == 0,
        k == 2 ==> b2 == 0,
        k == 3 ==> b3 == 0,
        k == 4 ==> b4 == 0,
        k == 5 ==> b5 == 0,
        k == 6 ==> b6 == 0,
        k == 7 ==> b7 == 0,
    ensures
        word_of_bytes(b0, b1, b2, b3, b4, b5, b6, b7) & (1u64 << (8 * k + c)) == 0,
{
    assert(word_of_bytes(b0, b1, b2, b3, b4, b5, b6, b7) & (1u64 << (8 * k + c)) == 0) by (bit_vector)
        requires
            k < 8,
            c < 8,
            k == 0 ==> b0 == 0,
            k == 1 ==> b1 == 0,
            k == 2 ==> b2 == 0,
            k == 3 ==> b3 == 0,
            k == 4 ==> b4 == 0,
            k == 5 ==> b5 == 0,
            k == 6 ==> b6 == 0,
            k == 7 ==> b7 == 0,
    ;
}

/// The words that the bytes for `size` bits spell have no bit set past
/// those bytes.
proof fn lemma_bitmap_clear(bm: Seq<u8>, size: u64)
    requires
        bm.len() == bytes_for(size),
    ensures
        forall|p: int| 8 * bytes_for(size) <= p < 64 * words_for(size) ==> !#[trigger] has_bit(words_from_bitmap(bm, words_for(size)), p),
{
    let words = words_from_bitmap(bm, words_for(size));
    assert forall|p: int| 8 * bytes_for(size) <= p < 64 * words_for(size) implies !#[trigger] has_bit(words, p) by {
        let w = p / 64;
        let k = (p % 64) / 8;
        let c = p % 8;
        assert(p % 64 == 8 * k + c && 8 * w + k == p / 8 && 0 <= w < words_for(size)) by (nonlinear_arith)
            requires
                w == p / 64,
                k == (p % 64) / 8,
                c == p % 8,
                0 <= p < 64 * words_for(size),
        ;
        assert(8 * w + k >= bm.len()) by (nonlinear_arith)
            requires
                8 * w + k == p / 8,
                8 * bm.len() <= p,
        ;
        lemma_zero_byte_bit(
            byte_or_zero(bm, 8 * w),
            byte_or_zero(bm, 8 * w + 1),
            byte_or_zero(bm, 8 * w + 2),
            byte_or_zero(bm, 8 * w + 3),
            byte_or_zero(bm, 8 * w + 4),
            byte_or_zero(bm, 8 * w + 5),
            byte_or_zero(bm, 8 * w + 6),
            byte_or_zero(bm, 8 * w + 7),
            k as u64,
            c as u64,
        );
        assert(words[w] == assembled_word(bm, w));
    }
}

impl Default for BloomFilter {
    /// The default filter: 256 bits and four hash functions that share one
    /// random seed.
    fn default() -> (f: Self)
        ensures
            f@.wf(),
            f@.size == 256,
            f@.seeds.len() == 4,
            forall|j: int| 0 <= j < 4 ==> #[trigger] f@.seeds[j] == f@.seeds[0],
            forall|p: int| 0 <= p < 64 * f@.words.len() ==> !#[trigger] has_bit(f@.words, p),
    {
        let first = XxHash3Impl::random();
        let mut hashes: Vec<XxHash3Impl> = Vec::new();
        let mut i: usize = 0;
        while i < 4
            invariant
                i <= 4,
                hashes@.len() == i,
                forall|j: int| 0 <= j < i ==> #[trigger] hashes@[j].hash_seed() == first.hash_seed(),
            decreases 4 - i,
        {
            hashes.push(first.duplicate());
            i = i + 1;
        }
        BloomFilter::new(256, hashes)
    }
}

/// Byte `i` of `bytes`, or zero past their end.
fn read_byte_or_zero(bytes: &[u8], i: u64) -> (r: u8)
    ensures
        r == byte_or_zero(bytes@, i as int),
{
    let n = bytes.len();
    if i < n as u64 {
        bytes[i as usize]
    } else {
        0
    }
}

/// Word `w` of the bitset that `bytes` spell.
fn read_word(bytes: &[u8], w: u64) -> (r: u64)
    requires
        8 * w + 7 <= u64::MAX,
    ensures
        r == assembled_word(bytes@, w as int),
{
    let i = 8 * w;
    let b0 = read_byte_or_zero(bytes, i) as u64;
    let b1 = read_byte_or_zero(bytes, i + 1) as u64;
    let b2 = read_byte_or_zero(bytes, i + 2) as u64;
    let b3 = read_byte_or_zero(bytes, i + 3) as u64;
    let b4 = read_byte_or_zero(bytes, i + 4) as u64;
    let b5 = read_byte_or_zero(bytes, i + 5) as u64;
    let b6 = read_byte_or_zero(bytes, i + 6) as u64;
    let b7 = read_byte_or_zero(bytes, i + 7) as u64;
    b0 | (b1 << 8u64) | (b2 << 16u64) | (b3 << 24u64) | (b4 << 32u64) | (b5 << 40u64) | (b6 << 48u64) | (b7 << 56u64)
}

/// Number of bytes that hold `size` bits.
fn byte_count(size: u64) -> (r: u64)
    ensures
        r == bytes_for(size),
{
    size / 8 + if size % 8 == 0 {
        0
    } else {
        1
    }
}

/// A byte below the encoded length lies in a word of the bitset.
proof fn lemma_byte_in_word(size: u64, i: int)
    requires
        0 <= i < bytes_for(size),
    ensures
        i / 8 < words_for(size),
{
    assert(8 * i < size) by (nonlinear_arith)
        requires
            0 <= i < (size + 7) / 8,
    ;
    assert(i / 8 < (size + 63) / 64) by (nonlinear_arith)
        requires
            0 <= i,
            8 * i < size,
    ;
}

/// No more words than bytes hold the same bits.
proof fn lemma_words_within_bytes(size: u64)
    ensures
        words_for(size) <= bytes_for(size),
        words_for(size) <= 288230376151711744,
{
    assert((size + 63) / 64 <= (size + 7) / 8) by (nonlinear_arith);
    assert((size + 63) / 64 <= 288230376151711744) by (nonlinear_arith)
        requires
            size <= u64::MAX,
    ;
}

impl BloomFilter {
    /// An empty filter over `size` bits with the given hash functions.
    pub fn new(size: u64, hashes: Vec<XxHash3Impl>) -> (f: Self)
        requires
            words_for(size) <= usize::MAX,
        ensures
            f@.wf(),
            f@.size == size,
            f@.seeds == Seq::new(hashes@.len(), |i: int| hashes@[i].hash_seed()),
            forall|p: int| 0 <= p < 64 * f@.words.len() ==> !#[trigger] has_bit(f@.words, p),
    {
        let n = word_count(size) as usize;
        let bitset = zero_words(n);
        proof {
            lemma_zero_words(bitset@);
        }
        BloomFilter { bitset, size, hashes }
    }

    fn set_bit(&mut self, pos: u64)
        requires
            pos < 64 * old(self)@.words.len(),
        ensures
            final(self).size == old(self).size,
            final(self).hashes == old(self).hashes,
            final(self)@.words.len() == old(self)@.words.len(),
            forall|p: int| 0 <= p < 64 * old(self)@.words.len() ==> #[trigger] has_bit(final(self)@.words, p) == (has_bit(old(self)@.words, p) || p == pos),
    {
        let n = self.bitset.len();
        assert(pos / 64 < n) by (nonlinear_arith)
            requires
                pos < 64 * n,
        ;
        let word = (pos / 64) as usize;
        let bit = pos % 64;
        let w = self.bitset[word];
        self.bitset.set(word, w | (1u64 << bit));
        proof {
            assert forall|p: int| 0 <= p < 64 * old(self)@.words.len() implies #[trigger] has_bit(self@.words, p) == (has_bit(old(self)@.words, p) || p == pos) by {
                lemma_set_bit(w, bit, (p % 64) as u64);
                if p / 64 == word {
                    if p % 64 == bit {
                        assert(p == pos);
                    } else {
                        assert(p != pos);
                    }
                } else {
                    assert(p != pos);
                }
            }
        }
    }

    fn has_bit_at(&self, pos: u64) -> (r: bool)
        requires
            pos < 64 * self@.words.len(),
        ensures
            r == has_bit(self@.words, pos as int),
    {
        let n = self.bitset.len();
        assert(pos / 64 < n) by (nonlinear_arith)
            requires
                pos < 64 * n,
        ;
        let word = (pos / 64) as usize;
        let bit = pos % 64;
        (self.bitset[word] & (1u64 << bit)) != 0
    }

    /// Adds a member: sets the bit that each hash function selects for it.
    pub fn add(&mut self, member: &[u8])
        requires
            old(self)@.wf(),
            old(self)@.hashable(),
        ensures
            final(self)@.wf(),
            old(self)@.added(final(self)@, member@),
    {
        let size = self.size;
        let mut positions: Vec<u64> = Vec::new();
        let mut j: usize = 0;
        while j < self.hashes.len()
            invariant
                self@.wf(),
                self@.hashable(),
                size == self.size,
                j <= self.hashes@.len(),
                positions@.len() == j,
                forall|k: int| 0 <= k < j ==> #[trigger] positions@[k] == position(self@.seeds[k], size, member@),
            decreases self.hashes@.len() - j,
        {
            let h = self.hashes[j].encode(member);
            proof {
                self.hashes@[j as int].lemma_hash_of(member@);
            }
            positions.push(h % size);
            j = j + 1;
        }
        let ghost before = self@;
        let mut k: usize = 0;
        while k < positions.len()
            invariant
                before.wf(),
                before.hashable(),
                self@.size == before.size,
                self@.seeds == before.seeds,
                self.hashes == old(self).hashes,
                self@.words.len() == before.words.len(),
                positions@.len() == before.seeds.len(),
                k <= positions@.len(),
                forall|i: int| 0 <= i < positions@.len() ==> #[trigger] positions@[i] == position(before.seeds[i], before.size, member@),
                forall|p: int| 0 <= p < 64 * before.words.len() ==> #[trigger] has_bit(self@.words, p) == (has_bit(before.words, p) || exists|i: int| 0 <= i < k && p == positions@[i]),
            decreases positions@.len() - k,
        {
            let pos = positions[k];
            proof {
                assert(pos < before.size);
                assert(before.size <= 64 * before.words.len());
            }
            self.set_bit(pos);
            proof {
                assert forall|p: int| 0 <= p < 64 * before.words.len() implies #[trigger] has_bit(self@.words, p) == (has_bit(before.words, p) || exists|i: int| 0 <= i < k + 1 && p == positions@[i]) by {
                    if p == pos {
                        assert(0 <= k < k + 1 && p == positions@[k as int]);
                    }
                    if exists|i: int| 0 <= i < k + 1 && p == positions@[i] {
                        let i = choose|i: int| 0 <= i < k + 1 && p == positions@[i];
                        if i < k {
                        } else {
                            assert(p == pos);
                        }
                    }
                }
            }
            k = k + 1;
        }
        proof {
            assert forall|p: int| 0 <= p < 64 * before.words.len() implies #[trigger] has_bit(self@.words, p) == (has_bit(before.words, p) || exists|j: int| 0 <= j < before.seeds.len() && p == position(before.seeds[j], before.size, member@)) by {
                if exists|i: int| 0 <= i < positions@.len() && p == positions@[i] {
                    let i = choose|i: int| 0 <= i < positions@.len() && p == positions@[i];
                    assert(p == position(before.seeds[i], before.size, member@));
                }
                if exists|j: int| 0 <= j < before.seeds.len() && p == position(before.seeds[j], before.size, member@) {
                    let j = choose|j: int| 0 <= j < before.seeds.len() && p == position(before.seeds[j], before.size, member@);
                    assert(p == positions@[j]);
                }
            }
            assert forall|p: int| 8 * bytes_for(self@.size) <= p < 64 * self@.words.len() implies !has_bit(self@.words, p) by {
                if exists|j: int| 0 <= j < before.seeds.len() && p == position(before.seeds[j], before.size, member@) {
                    let j = choose|j: int| 0 <= j < before.seeds.len() && p == position(before.seeds[j], before.size, member@);
                    assert(position(before.seeds[j], before.size, member@) < before.size);
                }
            }
        }
    }

    /// Whether every hash function selects a set bit for `member`: `false`
    /// means the member was never added.
    pub fn contains(&self, member: &[u8]) -> (r: bool)
        requires
            self@.wf(),
            self@.hashable(),
        ensures
            r == self@.contains(member@),
    {
        let mut j: usize = 0;
        while j < self.hashes.len()
            invariant
                self@.wf(),
                self@.hashable(),
                j <= self.hashes@.len(),
                forall|k: int| 0 <= k < j ==> has_bit(self@.words, #[trigger] position(self@.seeds[k], self@.size, member@)),
            decreases self.hashes@.len() - j,
        {
            let h = self.hashes[j].encode(member);
            proof {
                self.hashes@[j as int].lemma_hash_of(member@);
                assert(self@.seeds[j as int] == self.hashes@[j as int].hash_seed());
            }
            let pos = h % self.size;
            proof {
                assert(pos == position(self@.seeds[j as int], self@.size, member@));
                assert(self@.size <= 64 * self@.words.len());
            }
            if !self.has_bit_at(pos) {
                return false;
            }
            j = j + 1;
        }
        true
    }

    /// The filter's bytes: magic, size, number of hash functions, their
    /// seeds, then the bitset's bytes, just as many as hold `size` bits.
    pub fn encode(&self) -> (r: Vec<u8>)
        requires
            self@.wf(),
        ensures
            r@ == bloom_bytes(self@),
    {
        let mut encoder = Encoder::new();
        encoder.write_u64(BLOOM_MAGIC);
        encoder.write_u64(self.size);
        encoder.write_u32(self.hashes.len() as u32);
        let ghost header = encoder@;
        let ghost seeds = self@.seeds;
        let mut j: usize = 0;
        while j < self.hashes.len()
            invariant
                seeds == self@.seeds,
                j <= self.hashes@.len(),
                encoder@ == header + seeds_bytes(seeds.subrange(0, j as int)),
            decreases self.hashes@.len() - j,
        {
            let seed = self.hashes[j].seed();
            encoder.write_u64(seed);
            proof {
                assert(seeds.subrange(0, j + 1).drop_last() =~= seeds.subrange(0, j as int));
                assert(seeds_bytes(seeds.subrange(0, j + 1)) == seeds_bytes(seeds.subrange(0, j as int)) + u64_le(seed));
            }
            j = j + 1;
        }
        proof {
            assert(seeds.subrange(0, j as int) =~= seeds);
        }
        let count = byte_count(self.size);
        let ghost middle = encoder@;
        let n = self.bitset.len();
        let mut i: u64 = 0;
        while i < count
            invariant
                self@.wf(),
                n == self@.words.len(),
                count == bytes_for(self@.size),
                i <= count,
                encoder@ == middle + bitmap_bytes(self@.words, i as nat),
            decreases count - i,
        {
            proof {
                lemma_byte_in_word(self.size, i as int);
            }
            let word = (i / 8) as usize;
            let byte = i % 8;
            let b = (self.bitset[word] >> (byte * 8)) as u8;
            encoder.write_u8(b);
            proof {
                assert(b == bitmap_byte(self@.words, i as int));
                assert(bitmap_bytes(self@.words, (i + 1) as nat) =~= bitmap_bytes(self@.words, i as nat).push(b));
            }
            i = i + 1;
        }
        encoder.finish()
    }

    /// Reads a filter back from its bytes.
    pub fn decode(bytes: &[u8]) -> (r: Result<BloomFilter>)
        ensures
            match parse_bloom(bytes@) {
                Ok(v) => r matches Ok(f) && f@ == v && f@.wf(),
                Err(e) => r == Err::<BloomFilter, EngineError>(e),
            },
    {
        let ghost s = bytes@;
        let mut decoder = Decoder::new(bytes);
        let magic = decoder.read_u64()?;
        if magic != BLOOM_MAGIC {
            return Err(EngineError::CorruptBloomFilter("invalid magic"));
        }
        let size = decoder.read_u64()?;
        if size == 0 {
            return Err(EngineError::CorruptBloomFilter("zero-sized filter"));
        }
        let hash_count = decoder.read_u32()?;
        if hash_count == 0 {
            return Err(EngineError::CorruptBloomFilter("no hash functions"));
        }
        let mut hashes: Vec<XxHash3Impl> = Vec::new();
        let mut k: u32 = 0;
        while k < hash_count
            invariant
                s == bytes@,
                decoder.data() == s,
                decoder.pos() == 20 + 8 * k,
                k <= hash_count,
                hash_count == u32_at(s, 16),
                hash_count != 0,
                u64_at(s, 0) == BLOOM_MAGIC,
                u64_at(s, 8) == size,
                size != 0,
                20 + 8 * k <= s.len(),
                hashes@.len() == k,
                forall|j: int| 0 <= j < k ==> #[trigger] hashes@[j].hash_seed() == u64_at(s, 20 + 8 * j),
            decreases hash_count - k,
        {
            let seed = match decoder.read_u64() {
                Ok(seed) => seed,
                Err(e) => {
                    proof {
                        let n = s.len() as int;
                        assert((n - 20) / 8 == k) by (nonlinear_arith)
                            requires
                                20 + 8 * k <= n < 20 + 8 * k + 8,
                        ;
                    }
                    return Err(e);
                },
            };
            hashes.push(XxHash3Impl::from_seed(seed));
            k = k + 1;
        }
        let count = byte_count(size);
        let remaining = decoder.remaining();
        if remaining as u64 != count {
            return Err(EngineError::CorruptBloomFilter("unexpected bitset length"));
        }
        let bitmap = decoder.read_bytes(remaining)?;
        proof {
            lemma_words_within_bytes(size);
        }
        let nwords = word_count(size) as usize;
        let mut bitset: Vec<u64> = Vec::new();
        let mut w: usize = 0;
        while w < nwords
            invariant
                w <= nwords,
                nwords == words_for(size),
                nwords <= 288230376151711744,
                bitset@ =~= words_from_bitmap(bitmap@, w as nat),
            decreases nwords - w,
        {
            let word = read_word(bitmap, w as u64);
            bitset.push(word);
            w = w + 1;
        }
        let f = BloomFilter { bitset, size, hashes };
        proof {
            assert(f@.seeds =~= Seq::new(hash_count as nat, |j: int| u64_at(s, 20 + 8 * j)));
            lemma_bitmap_clear(bitmap@, size);
        }
        Ok(f)
    }
}

} // verus!
