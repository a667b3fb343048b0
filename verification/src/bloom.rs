//! Per-SST bloom filter.
//!
//! A negative answer proves that a key is absent; a positive one is only
//! probable. The filter is derived data: a missing or malformed sidecar costs
//! a file read and nothing else. Two fixed hash functions drive double
//! hashing, so the bits are the same in every process.

use crate::codec::{push_u32, push_u64, read_u32, read_u64, u32_at, u64_at};
use crate::error::{EngineError, Result};
use crate::file_io::{file_bytes, may_read_file, may_replace, FileIO};
use vstd::bytes::{
    lemma_auto_spec_u32_to_from_le_bytes, lemma_auto_spec_u64_to_from_le_bytes,
    spec_u32_to_le_bytes, spec_u64_to_le_bytes,
};
use vstd::prelude::*;

verus! {

// ── Hashes ────────────────────────────────────────────────────────────────

/// FNV-1a, 64 bits.
pub open spec fn spec_fnv1a(s: Seq<u8>) -> u64
    decreases s.len(),
{
    if s.len() == 0 {
        0xcbf2_9ce4_8422_2325
    } else {
        ((((spec_fnv1a(s.drop_last()) ^ (s.last() as u64)) as int) * 0x100_0000_01b3)
            % 0x1_0000_0000_0000_0000) as u64
    }
}

/// DJB2, 64 bits.
pub open spec fn spec_djb2(s: Seq<u8>) -> u64
    decreases s.len(),
{
    if s.len() == 0 {
        5381
    } else {
        ((spec_djb2(s.drop_last()) * 33 + s.last()) % 0x1_0000_0000_0000_0000) as u64
    }
}

/// Hashes `bytes` with FNV-1a.
pub fn fnv1a(bytes: &[u8]) -> (r: u64)
    ensures
        r == spec_fnv1a(bytes@),
{
    let mut hash: u64 = 0xcbf2_9ce4_8422_2325;
    let mut i: usize = 0;
    while i < bytes.len()
        invariant
            i <= bytes@.len(),
            hash == spec_fnv1a(bytes@.take(i as int)),
        decreases bytes@.len() - i,
    {
        assert(bytes@.take(i + 1).drop_last() =~= bytes@.take(i as int));
        hash = (hash ^ (bytes[i] as u64)).wrapping_mul(0x100_0000_01b3);
        i += 1;
    }
    assert(bytes@.take(i as int) =~= bytes@);
    hash
}

/// Hashes `bytes` with DJB2.
pub fn djb2(bytes: &[u8]) -> (r: u64)
    ensures
        r == spec_djb2(bytes@),
{
    let mut hash: u64 = 5381;
    let mut i: usize = 0;
    while i < bytes.len()
        invariant
            i <= bytes@.len(),
            hash == spec_djb2(bytes@.take(i as int)),
        decreases bytes@.len() - i,
    {
        assert(bytes@.take(i + 1).drop_last() =~= bytes@.take(i as int));
        let scaled: u64 = hash.wrapping_mul(33);
        hash = scaled.wrapping_add(bytes[i] as u64);
        i += 1;
    }
    assert(bytes@.take(i as int) =~= bytes@);
    hash
}

// ── The filter ────────────────────────────────────────────────────────────

/// A fixed-size bloom filter over byte keys.
#[derive(Debug, PartialEq, Eq)]
pub struct BloomFilter {
    /// Total bit count: a power of two, at least 64.
    pub num_bits: u64,
    /// Number of double-hash probes per key.
    pub num_hashes: u32,
    /// Bit array, packed into words, low bits first.
    pub bits: Vec<u64>,
}

/// The number is a power of two.
pub open spec fn is_power_of_two(n: u64) -> bool {
    n != 0 && n & ((n - 1) as u64) == 0
}

/// Bit `i` of a bit array.
pub open spec fn bit_at(bits: Seq<u64>, i: int) -> bool {
    (bits[i / 64] >> ((i % 64) as u64)) & 1u64 == 1u64
}

/// The bit that probe `p` of a key addresses.
pub open spec fn probe_bit(key: Seq<u8>, p: int, num_bits: u64) -> u64 {
    let h = ((spec_fnv1a(key) + (p * spec_djb2(key)) % 0x1_0000_0000_0000_0000)
        % 0x1_0000_0000_0000_0000) as u64;
    h & ((num_bits - 1) as u64)
}

/// Every probe of the key finds its bit set.
pub open spec fn all_probes_set(f: BloomFilter, key: Seq<u8>) -> bool {
    forall|p: int|
        0 <= p < f.num_hashes ==> bit_at(f.bits@, #[trigger] probe_bit(key, p, f.num_bits) as int)
}

impl BloomFilter {
    /// The bit count is a power of two of at least 64, and the words hold
    /// exactly so many bits.
    pub open spec fn wf(&self) -> bool {
        &&& is_power_of_two(self.num_bits)
        &&& self.num_bits % 64 == 0
        &&& self.bits@.len() == self.num_bits / 64
    }
}

proof fn lemma_mask(h: u64, n: u64)
    requires
        n != 0,
    ensures
        h & ((n - 1) as u64) < n,
{
    let m = (n - 1) as u64;
    assert(h & m <= m) by (bit_vector);
}

proof fn lemma_double(p: u64)
    requires
        is_power_of_two(p),
        p <= 0x4000_0000_0000_0000,
        p % 64 == 0,
    ensures
        is_power_of_two((p * 2) as u64),
        (p * 2) % 64 == 0,
{
    assert(p != 0 && p & ((p - 1) as u64) == 0 && p <= 0x4000_0000_0000_0000u64 ==> ((p * 2) as u64)
        != 0 && ((p * 2) as u64) & ((((p * 2) as u64) - 1) as u64) == 0) by (bit_vector);
}

proof fn lemma_set_bit(w: u64, i: u64, j: u64)
    requires
        i < 64,
        j < 64,
    ensures
        ((w | (1u64 << j)) >> i) & 1u64 == 1u64 <==> i == j || (w >> i) & 1u64 == 1u64,
{
    assert(i < 64 && j < 64 ==> (((w | (1u64 << j)) >> i) & 1u64 == 1u64 <==> i == j || (w >> i)
        & 1u64 == 1u64)) by (bit_vector);
}

proof fn lemma_test_bit(w: u64, j: u64)
    requires
        j < 64,
    ensures
        w & (1u64 << j) == 0 <==> (w >> j) & 1u64 != 1u64,
{
    assert(j < 64 ==> (w & (1u64 << j) == 0 <==> (w >> j) & 1u64 != 1u64)) by (bit_vector);
}

/// Whether `n` is a power of two.
fn power_of_two(n: u64) -> (r: bool)
    ensures
        r == is_power_of_two(n),
{
    n != 0 && n & (n - 1) == 0
}

fn probe(h1: u64, h2: u64, p: u32, num_bits: u64) -> (r: u64)
    requires
        num_bits != 0,
    ensures
        forall|key: Seq<u8>|
            spec_fnv1a(key) == h1 && spec_djb2(key) == h2 ==> r == #[trigger] probe_bit(
                key,
                p as int,
                num_bits,
            ),
        r < num_bits,
{
    let step: u64 = (p as u64).wrapping_mul(h2);
    let h: u64 = h1.wrapping_add(step);
    proof {
        lemma_mask(h, num_bits);
    }
    h & (num_bits - 1)
}

impl BloomFilter {
    /// Makes an empty filter of at least `min_bits` bits, rounded up to a
    /// power of two of at least 64, with `num_hashes` probes per key, at least
    /// 1 and at most 32.
    pub fn new(min_bits: u64, num_hashes: u32) -> (r: Self)
        requires
            min_bits <= 0x8000_0000_0000_0000,
            min_bits / 64 <= usize::MAX / 2,
        ensures
            r.wf(),
            r.num_bits >= min_bits,
            r.num_bits == 64 || r.num_bits / 2 < min_bits,
            r.num_hashes == (if num_hashes < 1 {
                1
            } else if num_hashes > 32 {
                32
            } else {
                num_hashes as int
            }),
            forall|i: int| 0 <= i < r.num_bits ==> !bit_at(r.bits@, i),
    {
        let mut num_bits: u64 = 64;
        assert(is_power_of_two(64)) by {
            assert(64u64 & 63u64 == 0) by (bit_vector);
        }
        while num_bits < min_bits
            invariant
                min_bits <= 0x8000_0000_0000_0000,
                num_bits >= 64,
                is_power_of_two(num_bits),
                num_bits % 64 == 0,
                num_bits == 64 || num_bits / 2 < min_bits,
                num_bits <= 0x8000_0000_0000_0000,
            decreases 0x8000_0000_0000_0000 - num_bits,
        {
            proof {
                if num_bits > 0x4000_0000_0000_0000 {
                    assert(num_bits != 0 && num_bits & ((num_bits - 1) as u64) == 0 && num_bits
                        > 0x4000_0000_0000_0000u64 ==> num_bits >= 0x8000_0000_0000_0000u64)
                        by (bit_vector);
                }
                lemma_double(num_bits);
            }
            num_bits = num_bits * 2;
        }
        let words: u64 = num_bits / 64;
        let mut bits: Vec<u64> = Vec::new();
        let mut i: u64 = 0;
        while i < words
            invariant
                i <= words,
                bits@.len() == i,
                forall|j: int| 0 <= j < i ==> #[trigger] bits@[j] == 0,
            decreases words - i,
        {
            bits.push(0);
            i += 1;
        }
        let num_hashes: u32 = if num_hashes < 1 {
            1
        } else if num_hashes > 32 {
            32
        } else {
            num_hashes
        };
        let r = BloomFilter { num_bits, num_hashes, bits };
        assert forall|k: int| 0 <= k < r.num_bits implies !bit_at(r.bits@, k) by {
            assert(r.bits@[k / 64] == 0);
            let s = (k % 64) as u64;
            assert((0u64 >> s) & 1u64 == 0) by (bit_vector);
        }
        r
    }

    /// Inserts `key`: sets the bit of each of its probes and no other.
    pub fn insert(&mut self, key: &[u8])
        requires
            old(self).wf(),
        ensures
            final(self).wf(),
            final(self).num_bits == old(self).num_bits,
            final(self).num_hashes == old(self).num_hashes,
            forall|i: int|
                0 <= i < old(self).num_bits ==> (bit_at(final(self).bits@, i) <==> bit_at(
                    old(self).bits@,
                    i,
                ) || exists|p: int|
                    0 <= p < old(self).num_hashes && #[trigger] probe_bit(
                        key@,
                        p,
                        old(self).num_bits,
                    ) == i),
    {
        let h1: u64 = fnv1a(key);
        let h2: u64 = djb2(key);
        let mut p: u32 = 0;
        while p < self.num_hashes
            invariant
                h1 == spec_fnv1a(key@),
                h2 == spec_djb2(key@),
                self.wf(),
                self.num_bits == old(self).num_bits,
                self.num_hashes == old(self).num_hashes,
                p <= self.num_hashes,
                forall|i: int|
                    0 <= i < self.num_bits ==> (#[trigger] bit_at(self.bits@, i) <==> bit_at(
                        old(self).bits@,
                        i,
                    ) || exists|q: int|
                        0 <= q < p && #[trigger] probe_bit(key@, q, self.num_bits) == i),
            decreases self.num_hashes - p,
        {
            let bit: u64 = probe(h1, h2, p, self.num_bits);
            assert(self.bits.len() == self.bits@.len());
            let word: usize = (bit / 64) as usize;
            let shift: u64 = bit % 64;
            let ghost before = self.bits@;
            let updated: u64 = self.bits[word] | (1u64 << shift);
            self.bits.set(word, updated);
            proof {
                assert forall|i: int| 0 <= i < self.num_bits implies (#[trigger] bit_at(
                    self.bits@,
                    i,
                ) <==> bit_at(old(self).bits@, i) || exists|q: int|
                    0 <= q < p + 1 && #[trigger] probe_bit(key@, q, self.num_bits) == i) by {
                    lemma_set_bit(before[word as int], (i % 64) as u64, shift);
                    assert(bit_at(self.bits@, i) <==> bit_at(before, i) || i == bit);
                    assert(probe_bit(key@, p as int, self.num_bits) == bit);
                    if bit_at(before, i) && !bit_at(old(self).bits@, i) {
                        let q = choose|q: int|
                            0 <= q < p && #[trigger] probe_bit(key@, q, self.num_bits) == i;
                        assert(probe_bit(key@, q, self.num_bits) == i);
                    }
                    if exists|q: int|
                        0 <= q < p + 1 && #[trigger] probe_bit(key@, q, self.num_bits) == i {
                        let q = choose|q: int|
                            0 <= q < p + 1 && #[trigger] probe_bit(key@, q, self.num_bits) == i;
                        if q < p {
                            assert(bit_at(before, i));
                        }
                    }
                }
            }
            p += 1;
        }
    }

    /// Returns `false` if `key` is definitely absent.
    pub fn contains(&self, key: &[u8]) -> (r: bool)
        requires
            self.wf(),
        ensures
            r == (self.num_hashes > 0 && all_probes_set(*self, key@)),
    {
        if self.num_hashes == 0 {
            return false;
        }
        let h1: u64 = fnv1a(key);
        let h2: u64 = djb2(key);
        let mut p: u32 = 0;
        while p < self.num_hashes
            invariant
                h1 == spec_fnv1a(key@),
                h2 == spec_djb2(key@),
                self.wf(),
                p <= self.num_hashes,
                forall|q: int|
                    0 <= q < p ==> bit_at(
                        self.bits@,
                        #[trigger] probe_bit(key@, q, self.num_bits) as int,
                    ),
            decreases self.num_hashes - p,
        {
            let bit: u64 = probe(h1, h2, p, self.num_bits);
            assert(self.bits.len() == self.bits@.len());
            let word: usize = (bit / 64) as usize;
            let shift: u64 = bit % 64;
            proof {
                lemma_test_bit(self.bits@[word as int], shift);
                assert(probe_bit(key@, p as int, self.num_bits) == bit);
            }
            if self.bits[word] & (1u64 << shift) == 0 {
                return false;
            }
            p += 1;
        }
        true
    }

    /// Validates the internal invariants: the bit count is a power of two of
    /// at least 64, there are 1 to 32 probes, and the words match the count.
    pub fn assert_invariants(&self) -> (r: bool)
        ensures
            r == (self.wf() && 1 <= self.num_hashes <= 32),
    {
        if !power_of_two(self.num_bits) || self.num_bits % 64 != 0 {
            return false;
        }
        if self.num_hashes == 0 || self.num_hashes > 32 {
            return false;
        }
        self.bits.len() as u64 == self.num_bits / 64
    }
}

impl Clone for BloomFilter {
    fn clone(&self) -> (r: Self)
        ensures
            r.num_bits == self.num_bits,
            r.num_hashes == self.num_hashes,
            r.bits@ == self.bits@,
    {
        let mut bits: Vec<u64> = Vec::new();
        bits.extend_from_slice(self.bits.as_slice());
        assert(bits@ =~= self.bits@);
        BloomFilter { num_bits: self.num_bits, num_hashes: self.num_hashes, bits }
    }
}

// ── The sidecar format ────────────────────────────────────────────────────

/// The magic bytes, `BF01`.
pub open spec fn magic() -> Seq<u8> {
    seq![66u8, 70u8, 48u8, 49u8]
}

/// The words of a bit array, one behind the other.
pub open spec fn word_bytes(words: Seq<u64>) -> Seq<u8>
    decreases words.len(),
{
    if words.len() == 0 {
        Seq::empty()
    } else {
        word_bytes(words.drop_last()) + spec_u64_to_le_bytes(words.last())
    }
}

/// The sidecar of a filter.
pub open spec fn filter_bytes(num_bits: u64, num_hashes: u32, words: Seq<u64>) -> Seq<u8> {
    magic() + spec_u64_to_le_bytes(num_bits) + spec_u32_to_le_bytes(num_hashes) + word_bytes(words)
}

/// `s` is the sidecar of some filter that is in order.
pub open spec fn is_filter(s: Seq<u8>) -> bool {
    &&& s.len() >= 16
    &&& s.subrange(0, 4) == magic()
    &&& is_power_of_two(u64_at(s, 4))
    &&& u64_at(s, 4) % 64 == 0
    &&& s.len() == 16 + (u64_at(s, 4) / 64) * 8
}

proof fn lemma_word_bytes_len(words: Seq<u64>)
    ensures
        word_bytes(words).len() == words.len() * 8,
    decreases words.len(),
{
    lemma_auto_spec_u64_to_from_le_bytes();
    if words.len() > 0 {
        lemma_word_bytes_len(words.drop_last());
    }
}

/// The word at place `i` of its bytes.
proof fn lemma_word_at(words: Seq<u64>, i: int)
    requires
        0 <= i < words.len(),
    ensures
        word_bytes(words).len() == words.len() * 8,
        word_bytes(words).subrange(i * 8, i * 8 + 8) == spec_u64_to_le_bytes(words[i]),
    decreases words.len(),
{
    lemma_auto_spec_u64_to_from_le_bytes();
    lemma_word_bytes_len(words);
    let init = words.drop_last();
    lemma_word_bytes_len(init);
    let all = word_bytes(words);
    if i == words.len() - 1 {
        assert(all.subrange(i * 8, i * 8 + 8) =~= spec_u64_to_le_bytes(words[i]));
    } else {
        lemma_word_at(init, i);
        assert(all.subrange(i * 8, i * 8 + 8) =~= word_bytes(init).subrange(i * 8, i * 8 + 8));
    }
}

/// A filter is read back from its sidecar.
pub proof fn law_filter_round_trip(num_bits: u64, num_hashes: u32, words: Seq<u64>)
    requires
        is_power_of_two(num_bits),
        num_bits % 64 == 0,
        words.len() == num_bits / 64,
    ensures
        ({
            let s = filter_bytes(num_bits, num_hashes, words);
            &&& is_filter(s)
            &&& u64_at(s, 4) == num_bits
            &&& u32_at(s, 12) == num_hashes
            &&& forall|i: int| 0 <= i < words.len() ==> u64_at(s, 16 + i * 8) == #[trigger] words[i]
        }),
{
    lemma_auto_spec_u32_to_from_le_bytes();
    lemma_auto_spec_u64_to_from_le_bytes();
    lemma_word_bytes_len(words);
    let s = filter_bytes(num_bits, num_hashes, words);
    assert(s.subrange(0, 4) =~= magic());
    assert(s.subrange(4, 12) =~= spec_u64_to_le_bytes(num_bits));
    assert(s.subrange(12, 16) =~= spec_u32_to_le_bytes(num_hashes));
    assert forall|i: int| 0 <= i < words.len() implies u64_at(s, 16 + i * 8) == #[trigger] words[i] by {
        lemma_word_at(words, i);
        assert(s.subrange(16 + i * 8, 16 + i * 8 + 8) =~= word_bytes(words).subrange(
            i * 8,
            i * 8 + 8,
        ));
    }
}

/// A key that was inserted is found, and inserting another key afterwards
/// does not change that: the filter gives no false negatives.
pub proof fn law_no_false_negatives(f: BloomFilter, g: BloomFilter, key: Seq<u8>, other: Seq<u8>)
    requires
        f.wf(),
        g.wf(),
        f.num_hashes > 0,
        g.num_bits == f.num_bits,
        g.num_hashes == f.num_hashes,
        forall|i: int|
            0 <= i < f.num_bits ==> (bit_at(g.bits@, i) <==> bit_at(f.bits@, i) || exists|p: int|
                0 <= p < f.num_hashes && #[trigger] probe_bit(key, p, f.num_bits) == i),
    ensures
        all_probes_set(g, key),
        all_probes_set(f, other) ==> all_probes_set(g, other),
{
    assert forall|p: int| 0 <= p < g.num_hashes implies bit_at(
        g.bits@,
        #[trigger] probe_bit(key, p, g.num_bits) as int,
    ) by {
        lemma_probe_in_range(key, p, g.num_bits);
    }
    if all_probes_set(f, other) {
        assert forall|p: int| 0 <= p < g.num_hashes implies bit_at(
            g.bits@,
            #[trigger] probe_bit(other, p, g.num_bits) as int,
        ) by {
            lemma_probe_in_range(other, p, g.num_bits);
            assert(bit_at(f.bits@, probe_bit(other, p, f.num_bits) as int));
        }
    }
}

/// Inserting a key that is already in the filter changes no bit.
pub proof fn law_insert_is_idempotent(f: BloomFilter, g: BloomFilter, key: Seq<u8>, i: int)
    requires
        all_probes_set(f, key),
        0 <= i < f.num_bits,
        bit_at(g.bits@, i) <==> bit_at(f.bits@, i) || exists|p: int|
            0 <= p < f.num_hashes && #[trigger] probe_bit(key, p, f.num_bits) == i,
    ensures
        bit_at(g.bits@, i) <==> bit_at(f.bits@, i),
{
    if exists|p: int| 0 <= p < f.num_hashes && #[trigger] probe_bit(key, p, f.num_bits) == i {
        let p = choose|p: int|
            0 <= p < f.num_hashes && #[trigger] probe_bit(key, p, f.num_bits) == i;
        assert(bit_at(f.bits@, probe_bit(key, p, f.num_bits) as int));
    }
}

proof fn lemma_probe_in_range(key: Seq<u8>, p: int, num_bits: u64)
    requires
        num_bits != 0,
    ensures
        probe_bit(key, p, num_bits) < num_bits,
{
    let h = ((spec_fnv1a(key) + (p * spec_djb2(key)) % 0x1_0000_0000_0000_0000)
        % 0x1_0000_0000_0000_0000) as u64;
    lemma_mask(h, num_bits);
}

impl BloomFilter {
    /// Serialises the filter: magic, bit count, probe count, words.
    pub fn to_bytes(&self) -> (r: Vec<u8>)
        ensures
            r@ == filter_bytes(self.num_bits, self.num_hashes, self.bits@),
    {
        let mut out: Vec<u8> = Vec::new();
        out.push(66);
        out.push(70);
        out.push(48);
        out.push(49);
        assert(out@ =~= magic());
        push_u64(&mut out, self.num_bits);
        push_u32(&mut out, self.num_hashes);
        let ghost head = out@;
        let mut i: usize = 0;
        assert(out@ =~= head + word_bytes(self.bits@.take(0)));
        while i < self.bits.len()
            invariant
                i <= self.bits@.len(),
                out@ == head + word_bytes(self.bits@.take(i as int)),
            decreases self.bits@.len() - i,
        {
            assert(self.bits@.take(i + 1).drop_last() =~= self.bits@.take(i as int));
            push_u64(&mut out, self.bits[i]);
            assert(out@ =~= head + word_bytes(self.bits@.take(i + 1)));
            i += 1;
        }
        assert(self.bits@.take(i as int) =~= self.bits@);
        out
    }

    /// Decodes a serialised filter; `None` on any structural mismatch (bad
    /// magic, a bit count that is no power of two of at least 64, a truncated
    /// or overlong payload).
    pub fn from_bytes(bytes: &[u8]) -> (r: Option<Self>)
        ensures
            r is Some <==> is_filter(bytes@),
            r matches Some(f) ==> {
                &&& f.wf()
                &&& f.num_bits == u64_at(bytes@, 4)
                &&& f.num_hashes == u32_at(bytes@, 12)
                &&& forall|i: int|
                    0 <= i < f.bits@.len() ==> #[trigger] f.bits@[i] == u64_at(bytes@, 16 + i * 8)
            },
    {
        if bytes.len() < 16 {
            return None;
        }
        let ok = bytes[0] == 66 && bytes[1] == 70 && bytes[2] == 48 && bytes[3] == 49;
        proof {
            let m = bytes@.subrange(0, 4);
            if ok {
                assert(m =~= magic());
            } else {
                assert(m[0] == bytes@[0] && m[1] == bytes@[1] && m[2] == bytes@[2] && m[3]
                    == bytes@[3]);
                assert(magic()[0] == 66 && magic()[1] == 70 && magic()[2] == 48 && magic()[3] == 49);
            }
        }
        if !ok {
            return None;
        }
        let num_bits: u64 = read_u64(bytes, 4);
        let num_hashes: u32 = read_u32(bytes, 12);
        if !power_of_two(num_bits) || num_bits % 64 != 0 {
            return None;
        }
        let words: u64 = num_bits / 64;
        if (bytes.len() - 16) as u64 != words * 8 {
            return None;
        }
        let mut bits: Vec<u64> = Vec::new();
        let mut i: u64 = 0;
        while i < words
            invariant
                i <= words,
                bytes@.len() == 16 + words * 8,
                bytes@.len() <= usize::MAX,
                bits@.len() == i,
                forall|j: int| 0 <= j < i ==> #[trigger] bits@[j] == u64_at(bytes@, 16 + j * 8),
            decreases words - i,
        {
            let at: usize = (16 + i * 8) as usize;
            bits.push(read_u64(bytes, at));
            i += 1;
        }
        Some(BloomFilter { num_bits, num_hashes, bits })
    }

    /// Writes the filter to the file `path`.
    pub fn write_to<F: FileIO>(&self, file: &mut F, path: &str) -> (r: Result<()>)
        requires
            old(file).wf(),
        ensures
            final(file).wf(),
            final(file).current() == old(file).current(),
            r is Ok ==> final(file).files() == old(file).files().insert(
                path@,
                filter_bytes(self.num_bits, self.num_hashes, self.bits@),
            ),
            r matches Err(e) ==> e is Io && (final(file).files() == old(file).files() ||
                final(file).files() == old(file).files().insert(
                path@,
                filter_bytes(self.num_bits, self.num_hashes, self.bits@),
            )),
            may_replace(
                *old(file),
                path@,
                filter_bytes(self.num_bits, self.num_hashes, self.bits@),
                r is Ok,
            ),
    {
        let data = self.to_bytes();
        match file.write_atomic(path, data.as_slice()) {
            Ok(()) => Ok(()),
            Err(e) => Err(EngineError::Io(e)),
        }
    }

    /// Reads and decodes the filter in `path`; `None` when it cannot be read or
    /// is malformed.
    pub fn read_from<F: FileIO>(file: &mut F, path: &str) -> (r: Option<Self>)
        requires
            old(file).wf(),
        ensures
            final(file).wf(),
            final(file).current() == old(file).current(),
            final(file).files() == old(file).files(),
            r matches Some(f) ==> reads_as(file_bytes(old(file).files(), path@), f),
            exists|read: bool| #[trigger]
                may_read_file(*old(file), path@, read) && (r is Some <==> read
                    && is_filter(file_bytes(old(file).files(), path@))),
    {
        let content = file.read_file(path);
        assert(may_read_file(*old(file), path@, content is Ok));
        match content {
            Ok(bytes) => BloomFilter::from_bytes(bytes.as_slice()),
            Err(_) => None,
        }
    }
}

/// The bytes decode to the filter.
pub open spec fn reads_as(bytes: Seq<u8>, f: BloomFilter) -> bool {
    &&& is_filter(bytes)
    &&& f.wf()
    &&& f.num_bits == u64_at(bytes, 4)
    &&& f.num_hashes == u32_at(bytes, 12)
    &&& forall|i: int|
        0 <= i < f.bits@.len() ==> #[trigger] f.bits@[i] == u64_at(bytes, 16 + i * 8)
}

} // verus!
