//! CRC32C, the Castagnoli checksum of iSCSI, SCTP and ext4.
//!
//! Short inputs are folded bit by bit; long ones go through a 256-entry table
//! built once per call. [`Hasher`] feeds the checksum piece by piece.

use vstd::prelude::*;

verus! {

/// Initial register value.
pub const INIT: u32 = 0xFFFF_FFFF;

/// The reflected Castagnoli polynomial.
pub const POLY: u32 = 0x82F6_3B78;

/// Inputs of this length and longer are worth a table.
const TABLE_THRESHOLD: usize = 1024;

/// One step of the shift register.
pub open spec fn crc_bit(c: u32) -> u32 {
    if c & 1u32 != 0 {
        (c >> 1u32) ^ 0x82F6_3B78u32
    } else {
        c >> 1u32
    }
}

/// Eight steps of the shift register.
pub open spec fn crc_shift8(c: u32) -> u32 {
    crc_bit(crc_bit(crc_bit(crc_bit(crc_bit(crc_bit(crc_bit(crc_bit(c))))))))
}

/// The register after `b` has been folded in.
pub open spec fn crc_byte(c: u32, b: u8) -> u32 {
    crc_shift8(c ^ (b as u32))
}

/// The register after all of `s` has been folded in.
pub open spec fn crc_fold(init: u32, s: Seq<u8>) -> u32
    decreases s.len(),
{
    if s.len() == 0 {
        init
    } else {
        crc_byte(crc_fold(init, s.drop_last()), s.last())
    }
}

/// The CRC32C of `s`.
pub open spec fn spec_crc32c(s: Seq<u8>) -> u32 {
    crc_fold(INIT, s) ^ 0xFFFF_FFFFu32
}

/// `table` holds, at each place, that byte shifted out of the register.
pub open spec fn is_crc_table(table: Seq<u32>) -> bool {
    &&& table.len() == 256
    &&& forall|i: int| 0 <= i < 256 ==> table[i] == crc_shift8(#[trigger] (i as u32))
}

proof fn lemma_table_step(c: u32, b: u8)
    ensures
        ((c ^ (b as u32)) & 0xFFu32) < 256,
        crc_byte(c, b) == (c >> 8u32) ^ crc_shift8((c ^ (b as u32)) & 0xFFu32),
{
    let w = b as u32;
    let x = c ^ w;
    assert((x & 0xFFu32) < 256) by (bit_vector);
    assert(w < 256 && x == c ^ w ==> x >> 8u32 == c >> 8u32) by (bit_vector);
    assert(crc_shift8(x) == (x >> 8u32) ^ crc_shift8(x & 0xFFu32)) by (bit_vector);
}

proof fn lemma_bit_injective(a: u32, b: u32)
    requires
        a != b,
    ensures
        crc_bit(a) != crc_bit(b),
{
    assert(a != b ==> crc_bit(a) != crc_bit(b)) by (bit_vector);
}

proof fn lemma_shift8_injective(a: u32, b: u32)
    requires
        a != b,
    ensures
        crc_shift8(a) != crc_shift8(b),
{
    let (a1, b1) = (crc_bit(a), crc_bit(b));
    lemma_bit_injective(a, b);
    let (a2, b2) = (crc_bit(a1), crc_bit(b1));
    lemma_bit_injective(a1, b1);
    let (a3, b3) = (crc_bit(a2), crc_bit(b2));
    lemma_bit_injective(a2, b2);
    let (a4, b4) = (crc_bit(a3), crc_bit(b3));
    lemma_bit_injective(a3, b3);
    let (a5, b5) = (crc_bit(a4), crc_bit(b4));
    lemma_bit_injective(a4, b4);
    let (a6, b6) = (crc_bit(a5), crc_bit(b5));
    lemma_bit_injective(a5, b5);
    let (a7, b7) = (crc_bit(a6), crc_bit(b6));
    lemma_bit_injective(a6, b6);
    lemma_bit_injective(a7, b7);
}

/// Folding in `a` and then `b` is folding in `a + b`: a checksum may be fed
/// in pieces.
pub proof fn law_checksum_in_pieces(init: u32, a: Seq<u8>, b: Seq<u8>)
    ensures
        crc_fold(init, a + b) == crc_fold(crc_fold(init, a), b),
    decreases b.len(),
{
    if b.len() == 0 {
        assert(a + b =~= a);
    } else {
        assert((a + b).drop_last() =~= a + b.drop_last());
        law_checksum_in_pieces(init, a, b.drop_last());
    }
}

/// Two inputs of one length that differ in exactly one byte have different
/// checksums, whatever the initial register.
pub proof fn lemma_crc_detects_changed_byte(init: u32, a: Seq<u8>, b: Seq<u8>, at: int)
    requires
        a.len() == b.len(),
        0 <= at < a.len(),
        a[at] != b[at],
        forall|i: int| 0 <= i < a.len() && i != at ==> a[i] == b[i],
    ensures
        crc_fold(init, a) != crc_fold(init, b),
    decreases a.len(),
{
    let (la, lb) = (a.last(), b.last());
    let (ca, cb) = (crc_fold(init, a.drop_last()), crc_fold(init, b.drop_last()));
    let (wa, wb) = (la as u32, lb as u32);
    if at == a.len() - 1 {
        assert(a.drop_last() =~= b.drop_last());
        assert(wa != wb ==> ca ^ wa != ca ^ wb) by (bit_vector);
    } else {
        lemma_crc_detects_changed_byte(init, a.drop_last(), b.drop_last(), at);
        assert(ca != cb ==> ca ^ wa != cb ^ wa) by (bit_vector);
    }
    lemma_shift8_injective(ca ^ wa, cb ^ wb);
}

/// The checksum detects every change within one byte, in particular every
/// single flipped bit.
pub proof fn law_changed_byte_is_detected(a: Seq<u8>, b: Seq<u8>, at: int)
    requires
        a.len() == b.len(),
        0 <= at < a.len(),
        a[at] != b[at],
        forall|i: int| 0 <= i < a.len() && i != at ==> a[i] == b[i],
    ensures
        spec_crc32c(a) != spec_crc32c(b),
{
    lemma_crc_detects_changed_byte(INIT, a, b, at);
    let (x, y) = (crc_fold(INIT, a), crc_fold(INIT, b));
    assert(x != y ==> x ^ 0xFFFF_FFFFu32 != y ^ 0xFFFF_FFFFu32) by (bit_vector);
}

fn step_bit(c: u32) -> (r: u32)
    ensures
        r == crc_bit(c),
{
    if c & 1u32 != 0 {
        (c >> 1u32) ^ POLY
    } else {
        c >> 1u32
    }
}

fn shift8(c: u32) -> (r: u32)
    ensures
        r == crc_shift8(c),
{
    step_bit(step_bit(step_bit(step_bit(step_bit(step_bit(step_bit(step_bit(c))))))))
}

/// Builds the table of all single-byte shifts.
fn build_table() -> (table: Vec<u32>)
    ensures
        is_crc_table(table@),
{
    let mut table: Vec<u32> = Vec::new();
    let mut i: u32 = 0;
    while i < 256
        invariant
            i <= 256,
            table@.len() == i,
            forall|k: int| 0 <= k < i ==> table@[k] == crc_shift8(#[trigger] (k as u32)),
        decreases 256 - i,
    {
        table.push(shift8(i));
        i += 1;
    }
    table
}

/// Folds `bytes` into the register `init`.
pub fn crc32c_with_state(bytes: &[u8], init: u32) -> (r: u32)
    ensures
        r == crc_fold(init, bytes@),
{
    if bytes.len() < TABLE_THRESHOLD {
        crc32c_bitwise(bytes, init)
    } else {
        crc32c_software(bytes, init)
    }
}

fn crc32c_bitwise(bytes: &[u8], init: u32) -> (r: u32)
    ensures
        r == crc_fold(init, bytes@),
{
    let mut crc: u32 = init;
    let mut i: usize = 0;
    while i < bytes.len()
        invariant
            i <= bytes.len(),
            crc == crc_fold(init, bytes@.take(i as int)),
        decreases bytes.len() - i,
    {
        assert(bytes@.take(i + 1).drop_last() =~= bytes@.take(i as int));
        crc = shift8(crc ^ (bytes[i] as u32));
        i += 1;
    }
    assert(bytes@.take(i as int) =~= bytes@);
    crc
}

fn crc32c_software(bytes: &[u8], init: u32) -> (r: u32)
    ensures
        r == crc_fold(init, bytes@),
{
    let table = build_table();
    let mut crc: u32 = init;
    let mut i: usize = 0;
    while i < bytes.len()
        invariant
            is_crc_table(table@),
            i <= bytes.len(),
            crc == crc_fold(init, bytes@.take(i as int)),
        decreases bytes.len() - i,
    {
        assert(bytes@.take(i + 1).drop_last() =~= bytes@.take(i as int));
        proof {
            lemma_table_step(crc, bytes@[i as int]);
        }
        let slot: u32 = (crc ^ (bytes[i] as u32)) & 0xFF;
        assert(table@[slot as int] == crc_shift8(slot as int as u32));
        crc = (crc >> 8u32) ^ table[slot as usize];
        i += 1;
    }
    assert(bytes@.take(i as int) =~= bytes@);
    crc
}

/// One-shot CRC32C.
pub fn crc32c(bytes: &[u8]) -> (r: u32)
    ensures
        r == spec_crc32c(bytes@),
{
    crc32c_with_state(bytes, INIT) ^ 0xFFFF_FFFF
}

/// One-shot CRC32C without the final complement.
pub fn crc32c_unfinalized(bytes: &[u8]) -> (r: u32)
    ensures
        r == crc_fold(INIT, bytes@),
{
    crc32c_with_state(bytes, INIT)
}

/// Streaming CRC32C state.
#[derive(Debug, Clone, Copy)]
pub struct Hasher {
    state: u32,
}

impl Hasher {
    /// The register.
    pub closed spec fn register(self) -> u32 {
        self.state
    }

    /// Creates a hasher that has seen nothing.
    pub fn new() -> (r: Self)
        ensures
            r.register() == INIT,
    {
        Hasher { state: INIT }
    }

    /// Adds `bytes` to the running checksum.
    pub fn update(&mut self, bytes: &[u8])
        ensures
            final(self).register() == crc_fold(old(self).register(), bytes@),
    {
        self.state = crc32c_with_state(bytes, self.state);
    }

    /// Returns the checksum of all that was added.
    pub fn finalize(self) -> (r: u32)
        ensures
            r == self.register() ^ 0xFFFF_FFFFu32,
    {
        self.state ^ 0xFFFF_FFFF
    }
}

impl Default for Hasher {
    fn default() -> (r: Self)
        ensures
            r.register() == INIT,
    {
        Hasher::new()
    }
}

} // verus!
