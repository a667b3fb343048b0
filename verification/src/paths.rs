//! Names of the engine's files inside its directory.

use crate::text::digit_char;
use vstd::prelude::*;
use vstd::string::StringExecFns;

verus! {

/// The last `k` decimal digits of `n`, with leading zeros.
pub open spec fn padded(n: nat, k: nat) -> Seq<char>
    decreases k,
{
    if k == 0 {
        Seq::empty()
    } else {
        padded(n / 10, (k - 1) as nat).push(digit_char((n % 10) as int))
    }
}

/// The path of `name` inside `dir`.
pub open spec fn joined_path(dir: Seq<char>, name: Seq<char>) -> Seq<char> {
    if dir.len() == 0 || dir.last() == '/' {
        dir + name
    } else {
        dir.push('/') + name
    }
}

/// The name of a file of one kind: the kind, the id in twenty digits, and the
/// extension.
pub open spec fn numbered_name(kind: Seq<char>, id: u64, extension: Seq<char>) -> Seq<char> {
    kind + padded(id as nat, 20) + extension
}

/// The path of an SST.
pub open spec fn sst_path_of(dir: Seq<char>, id: u64) -> Seq<char> {
    joined_path(dir, numbered_name("sst-"@, id, ".vortex"@))
}

/// The path of the bloom filter of an SST.
pub open spec fn bloom_path_of(dir: Seq<char>, id: u64) -> Seq<char> {
    joined_path(dir, numbered_name("bloom-"@, id, ".bf"@))
}

/// The path of the key index of an SST.
pub open spec fn key_index_path_of(dir: Seq<char>, id: u64) -> Seq<char> {
    joined_path(dir, numbered_name("kidx-"@, id, ".bin"@))
}

fn push_padded(out: &mut String, n: u64, k: u8)
    ensures
        final(out)@ == old(out)@ + padded(n as nat, k as nat),
    decreases k,
{
    if k == 0 {
        assert(out@ =~= old(out)@ + padded(n as nat, k as nat));
    } else {
        push_padded(out, n / 10, k - 1);
        let d: u8 = (n % 10) as u8;
        out.push((48 + d) as char);
        assert(out@ =~= old(out)@ + padded(n as nat, k as nat));
    }
}

/// Returns the path of `name` inside `dir`.
pub fn join(dir: &str, name: &str) -> (r: String)
    ensures
        r@ == joined_path(dir@, name@),
{
    let mut out: String = dir.to_owned();
    let n: usize = dir.unicode_len();
    if n > 0 && dir.get_char(n - 1) != '/' {
        out.push('/');
    }
    out.append(name);
    out
}

fn numbered(dir: &str, kind: &str, id: u64, extension: &str) -> (r: String)
    ensures
        r@ == joined_path(dir@, numbered_name(kind@, id, extension@)),
{
    let mut name: String = kind.to_owned();
    push_padded(&mut name, id, 20);
    name.append(extension);
    join(dir, name.as_str())
}

/// Returns the path of the SST `file_id`.
pub fn sst_path(dir: &str, file_id: u64) -> (r: String)
    ensures
        r@ == sst_path_of(dir@, file_id),
{
    numbered(dir, "sst-", file_id, ".vortex")
}

/// Returns the path of the bloom filter of the SST `file_id`. The filter is
/// derived data: its path follows from the id, and a missing or malformed
/// file means that the SST itself is read.
pub fn bloom_path(dir: &str, file_id: u64) -> (r: String)
    ensures
        r@ == bloom_path_of(dir@, file_id),
{
    numbered(dir, "bloom-", file_id, ".bf")
}

/// Returns the path of the key index of the SST `file_id`, which is derived
/// data like the filter.
pub fn key_index_path(dir: &str, file_id: u64) -> (r: String)
    ensures
        r@ == key_index_path_of(dir@, file_id),
{
    numbered(dir, "kidx-", file_id, ".bin")
}

/// Returns the path of the table-schema registry.
pub fn schemas_path(dir: &str) -> (r: String)
    ensures
        r@ == joined_path(dir@, "hatp.schemas"@),
{
    join(dir, "hatp.schemas")
}

/// Returns the path of the write-ahead log.
pub fn wal_path(dir: &str) -> (r: String)
    ensures
        r@ == joined_path(dir@, "hatp.wal"@),
{
    join(dir, "hatp.wal")
}

/// Returns the path of the manifest.
pub fn manifest_path(dir: &str) -> (r: String)
    ensures
        r@ == joined_path(dir@, "MANIFEST"@),
{
    join(dir, "MANIFEST")
}

/// Ten to the power `k`.
spec fn ten_to(k: nat) -> nat
    decreases k,
{
    if k == 0 {
        1
    } else {
        10 * ten_to((k - 1) as nat)
    }
}

proof fn lemma_padded(a: nat, b: nat, k: nat)
    requires
        a < ten_to(k),
        b < ten_to(k),
        padded(a, k) == padded(b, k),
    ensures
        a == b,
    decreases k,
{
    if k > 0 {
        let pa = padded(a, k);
        let pb = padded(b, k);
        assert(pa.last() == digit_char((a % 10) as int));
        assert(pb.last() == digit_char((b % 10) as int));
        assert(a % 10 == b % 10);
        assert(pa.drop_last() =~= padded(a / 10, (k - 1) as nat));
        assert(pb.drop_last() =~= padded(b / 10, (k - 1) as nat));
        lemma_padded(a / 10, b / 10, (k - 1) as nat);
    }
}

proof fn lemma_padded_len(n: nat, k: nat)
    ensures
        padded(n, k).len() == k,
    decreases k,
{
    if k > 0 {
        lemma_padded_len(n / 10, (k - 1) as nat);
    }
}

proof fn lemma_numbered(dir: Seq<char>, kind: Seq<char>, extension: Seq<char>, a: u64, b: u64)
    requires
        joined_path(dir, numbered_name(kind, a, extension)) == joined_path(
            dir,
            numbered_name(kind, b, extension),
        ),
    ensures
        a == b,
{
    let pa = padded(a as nat, 20);
    let pb = padded(b as nat, 20);
    lemma_padded_len(a as nat, 20);
    lemma_padded_len(b as nat, 20);
    let na = numbered_name(kind, a, extension);
    let nb = numbered_name(kind, b, extension);
    let ja = joined_path(dir, na);
    let jb = joined_path(dir, nb);
    let skip = ja.len() - na.len();
    assert(na =~= ja.subrange(skip, ja.len() as int));
    assert(nb =~= jb.subrange(skip, jb.len() as int));
    assert(pa =~= na.subrange(kind.len() as int, (kind.len() + 20) as int));
    assert(pb =~= nb.subrange(kind.len() as int, (kind.len() + 20) as int));
    assert(ten_to(20) == 100_000_000_000_000_000_000) by {
        reveal_with_fuel(ten_to, 21);
    }
    lemma_padded(a as nat, b as nat, 20);
}

/// Different SSTs have different files, and so have their filters and
/// indexes.
pub proof fn law_paths_are_distinct(dir: Seq<char>, a: u64, b: u64)
    requires
        a != b,
    ensures
        sst_path_of(dir, a) != sst_path_of(dir, b),
        bloom_path_of(dir, a) != bloom_path_of(dir, b),
        key_index_path_of(dir, a) != key_index_path_of(dir, b),
{
    if sst_path_of(dir, a) == sst_path_of(dir, b) {
        lemma_numbered(dir, "sst-"@, ".vortex"@, a, b);
    }
    if bloom_path_of(dir, a) == bloom_path_of(dir, b) {
        lemma_numbered(dir, "bloom-"@, ".bf"@, a, b);
    }
    if key_index_path_of(dir, a) == key_index_path_of(dir, b) {
        lemma_numbered(dir, "kidx-"@, ".bin"@, a, b);
    }
}

/// A filter's file is never an index's file.
pub proof fn law_sidecars_do_not_collide(dir: Seq<char>, a: u64, b: u64)
    ensures
        bloom_path_of(dir, a) != key_index_path_of(dir, b),
{
    reveal_strlit("bloom-");
    reveal_strlit(".bf");
    reveal_strlit("kidx-");
    reveal_strlit(".bin");
    let x = bloom_path_of(dir, a);
    let y = key_index_path_of(dir, b);
    let k = if dir.len() == 0 || dir.last() == '/' {
        dir.len() as int
    } else {
        (dir.len() + 1) as int
    };
    assert(x[k] == 'b');
    assert(y[k] == 'k');
}

} // verus!
