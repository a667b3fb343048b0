//! Fixed-width little-endian integers inside byte buffers.

use crate::buf::append_bytes;
use vstd::bytes::{
    spec_u16_from_le_bytes, spec_u16_to_le_bytes, spec_u32_from_le_bytes, spec_u32_to_le_bytes,
    spec_u64_from_le_bytes, spec_u64_to_le_bytes, u16_from_le_bytes, u16_to_le_bytes,
    u32_from_le_bytes, u32_to_le_bytes, u64_from_le_bytes, u64_to_le_bytes,
};
use vstd::prelude::*;
use vstd::slice::slice_subrange;

verus! {

/// The `u16` at `at`.
pub open spec fn u16_at(s: Seq<u8>, at: int) -> u16 {
    spec_u16_from_le_bytes(s.subrange(at, at + 2))
}

/// The `u32` at `at`.
pub open spec fn u32_at(s: Seq<u8>, at: int) -> u32 {
    spec_u32_from_le_bytes(s.subrange(at, at + 4))
}

/// The `u64` at `at`.
pub open spec fn u64_at(s: Seq<u8>, at: int) -> u64 {
    spec_u64_from_le_bytes(s.subrange(at, at + 8))
}

/// A length and the bytes it counts.
pub open spec fn prefixed(s: Seq<u8>) -> Seq<u8> {
    spec_u32_to_le_bytes(s.len() as u32) + s
}

/// The length-prefixed bytes at `at`, and where they end.
pub open spec fn take_prefixed(buf: Seq<u8>, at: int) -> Option<(Seq<u8>, int)> {
    if at + 4 > buf.len() {
        None
    } else {
        let end = at + 4 + u32_at(buf, at);
        if end > buf.len() {
            None
        } else {
            Some((buf.subrange(at + 4, end), end))
        }
    }
}

/// Reads the `u16` at `at`.
pub fn read_u16(s: &[u8], at: usize) -> (r: u16)
    requires
        at + 2 <= s@.len(),
    ensures
        r == u16_at(s@, at as int),
{
    assert(s.len() == s@.len());
    u16_from_le_bytes(slice_subrange(s, at, at + 2))
}

/// Reads the `u32` at `at`.
pub fn read_u32(s: &[u8], at: usize) -> (r: u32)
    requires
        at + 4 <= s@.len(),
    ensures
        r == u32_at(s@, at as int),
{
    assert(s.len() == s@.len());
    u32_from_le_bytes(slice_subrange(s, at, at + 4))
}

/// Reads the `u64` at `at`.
pub fn read_u64(s: &[u8], at: usize) -> (r: u64)
    requires
        at + 8 <= s@.len(),
    ensures
        r == u64_at(s@, at as int),
{
    assert(s.len() == s@.len());
    u64_from_le_bytes(slice_subrange(s, at, at + 8))
}

/// Appends a `u16`.
pub fn push_u16(out: &mut Vec<u8>, x: u16)
    ensures
        final(out)@ == old(out)@ + spec_u16_to_le_bytes(x),
{
    let b = u16_to_le_bytes(x);
    append_bytes(out, b.as_slice());
}

/// Appends a `u32`.
pub fn push_u32(out: &mut Vec<u8>, x: u32)
    ensures
        final(out)@ == old(out)@ + spec_u32_to_le_bytes(x),
{
    let b = u32_to_le_bytes(x);
    append_bytes(out, b.as_slice());
}

/// Appends a `u64`.
pub fn push_u64(out: &mut Vec<u8>, x: u64)
    ensures
        final(out)@ == old(out)@ + spec_u64_to_le_bytes(x),
{
    let b = u64_to_le_bytes(x);
    append_bytes(out, b.as_slice());
}

} // verus!
