//! Key layout: table prefixes and the ranges that they span.

use crate::buf::{
    append_bytes, bytes_from_vec, bytes_view, has_prefix, in_range, lemma_lex_le_transitive, lex_le,
    lex_lt,
};
use bytes::Bytes;
use vstd::prelude::*;
use vstd::slice::slice_subrange;
use vstd::utf8::encode_utf8;

verus! {

/// The least byte string above every one that begins with `prefix`; none if
/// `prefix` is made of `0xFF` bytes alone.
pub open spec fn successor(prefix: Seq<u8>) -> Option<Seq<u8>>
    decreases prefix.len(),
{
    if prefix.len() == 0 {
        None
    } else if prefix.last() == 255 {
        successor(prefix.drop_last())
    } else {
        Some(prefix.drop_last().push((prefix.last() + 1) as u8))
    }
}

/// The exclusive upper bound of a prefix scan; `prefix` itself where there is
/// none, which makes the range empty.
pub open spec fn prefix_upper(prefix: Seq<u8>) -> Seq<u8> {
    match successor(prefix) {
        Some(u) => u,
        None => prefix,
    }
}

proof fn lemma_lex_shared_front(q: Seq<u8>, a: Seq<u8>, b: Seq<u8>)
    ensures
        lex_lt(q + a, q + b) == lex_lt(a, b),
    decreases q.len(),
{
    if q.len() == 0 {
        assert(q + a =~= a);
        assert(q + b =~= b);
    } else {
        assert((q + a).drop_first() =~= q.drop_first() + a);
        assert((q + b).drop_first() =~= q.drop_first() + b);
        lemma_lex_shared_front(q.drop_first(), a, b);
    }
}

proof fn lemma_prefix_is_le(k: Seq<u8>, p: Seq<u8>)
    requires
        has_prefix(k, p),
    ensures
        lex_le(p, k),
{
    let r = k.skip(p.len() as int);
    assert(k =~= p + r);
    assert(p =~= p + Seq::<u8>::empty());
    if r.len() > 0 {
        lemma_lex_shared_front(p, Seq::empty(), r);
    } else {
        assert(k =~= p);
    }
}

proof fn lemma_between_has_front(q: Seq<u8>, a: Seq<u8>, b: Seq<u8>, k: Seq<u8>)
    requires
        lex_le(q + a, k),
        lex_lt(k, q + b),
    ensures
        has_prefix(k, q),
    decreases q.len(),
{
    if q.len() == 0 {
        assert(k.take(0) =~= q);
    } else {
        assert((q + a).drop_first() =~= q.drop_first() + a);
        assert((q + b).drop_first() =~= q.drop_first() + b);
        assert(k.len() > 0 && k[0] == q[0]);
        lemma_between_has_front(q.drop_first(), a, b, k.drop_first());
        let t = k.drop_first();
        assert(t.take(q.len() - 1) == q.drop_first());
        assert forall|i: int| 0 <= i < q.len() implies k.take(q.len() as int)[i] == q[i] by {
            if i > 0 {
                assert(t.take(q.len() - 1)[i - 1] == q.drop_first()[i - 1]);
            }
        }
        assert(k.take(q.len() as int) =~= q);
    }
}

/// `prefix <= key < successor(prefix)` holds exactly for the keys that begin
/// with `prefix`, wherever there is a successor.
pub proof fn law_prefix_range(prefix: Seq<u8>, key: Seq<u8>)
    requires
        successor(prefix) is Some,
    ensures
        in_range(key, prefix, prefix_upper(prefix)) <==> has_prefix(key, prefix),
    decreases prefix.len(),
{
    let q = prefix.drop_last();
    let c = prefix.last();
    assert(prefix =~= q + seq![c]);
    let u = prefix_upper(prefix);
    if c == 255 {
        law_prefix_range(q, key);
        assert(q =~= q + Seq::<u8>::empty());
        lemma_lex_shared_front(q, Seq::empty(), seq![c]);
        if in_range(key, prefix, u) {
            lemma_lex_le_transitive(q, prefix, key);
            let r = key.skip(q.len() as int);
            assert(key =~= q + r);
            lemma_lex_shared_front(q, seq![c], r);
            assert(r.len() > 0 && r[0] == 255) by {
                if q + seq![c] == q + r {
                    assert((q + seq![c])[q.len() as int] == c);
                    assert((q + r).len() == q.len() + 1);
                }
            }
            assert(key.take(prefix.len() as int) =~= prefix);
        }
        if has_prefix(key, prefix) {
            lemma_prefix_is_le(key, prefix);
            assert(key.take(q.len() as int) =~= key.take(prefix.len() as int).take(q.len() as int));
            assert(prefix.take(q.len() as int) =~= q);
        }
    } else {
        let d = (c + 1) as u8;
        assert(u =~= q + seq![d]);
        if in_range(key, prefix, u) {
            lemma_between_has_front(q, seq![c], seq![d], key);
            let r = key.skip(q.len() as int);
            assert(key =~= q + r);
            lemma_lex_shared_front(q, seq![c], r);
            lemma_lex_shared_front(q, r, seq![d]);
            assert(r.len() > 0 && r[0] >= c) by {
                if q + seq![c] == q + r {
                    assert((q + seq![c])[q.len() as int] == c);
                    assert((q + r).len() == q.len() + 1);
                    assert(r[0] == (q + r)[q.len() as int]);
                }
            }
            assert(!lex_lt(r.drop_first(), seq![d].drop_first()));
            assert(r[0] == c);
            assert(key.take(prefix.len() as int) =~= prefix);
        }
        if has_prefix(key, prefix) {
            lemma_prefix_is_le(key, prefix);
            let r = key.skip(q.len() as int);
            assert(r[0] == key[q.len() as int]);
            assert(key.take(prefix.len() as int)[q.len() as int] == c);
            assert forall|i: int| 0 <= i < q.len() implies key[i] == q[i] by {
                assert(key.take(prefix.len() as int)[i] == prefix[i]);
            }
            assert(key =~= q + r);
            lemma_lex_shared_front(q, r, seq![d]);
        }
    }
}

/// Returns whether anything lies above every key that begins with `prefix`:
/// nothing does where `prefix` is made of `0xFF` bytes alone, or is empty.
pub fn has_successor(prefix: &[u8]) -> (r: bool)
    ensures
        r == successor(prefix@) is Some,
{
    let mut i: usize = prefix.len();
    assert(prefix@.take(i as int) =~= prefix@);
    while i > 0
        invariant
            i <= prefix@.len(),
            successor(prefix@) == successor(prefix@.take(i as int)),
        decreases i,
    {
        assert(prefix@.take(i as int).drop_last() =~= prefix@.take(i - 1));
        if prefix[i - 1] != 255 {
            return true;
        }
        i -= 1;
    }
    false
}

/// Returns the exclusive upper bound of the range that `prefix` spans.
///
/// A prefix of `0xFF` bytes alone has no finite bound; it comes back
/// unchanged, which makes the range empty.
pub fn prefix_upper_exclusive(prefix: &[u8]) -> (r: Vec<u8>)
    ensures
        r@ == prefix_upper(prefix@),
{
    let mut upper: Vec<u8> = Vec::new();
    append_bytes(&mut upper, prefix);
    assert(upper@ =~= prefix@);
    while upper.len() > 0
        invariant
            successor(prefix@) == successor(upper@),
        decreases upper.len(),
    {
        let last: u8 = upper[upper.len() - 1];
        if last == 255 {
            let ghost before = upper@;
            let _popped = upper.pop();
            assert(upper@ =~= before.drop_last());
        } else {
            let ghost before = upper@;
            let n: usize = upper.len() - 1;
            upper.set(n, last + 1);
            assert(upper@ =~= before.drop_last().push((last + 1) as u8));
            return upper;
        }
    }
    let mut same: Vec<u8> = Vec::new();
    append_bytes(&mut same, prefix);
    assert(same@ =~= prefix@);
    same
}

// ── Table keys ────────────────────────────────────────────────────────────

/// What every key of a table begins with: its name and a zero byte.
pub open spec fn table_prefix_of(table: Seq<char>) -> Seq<u8> {
    encode_utf8(table).push(0)
}

/// The part of a key up to and including its first zero byte; the whole key
/// where it has none.
pub open spec fn key_prefix(key: Seq<u8>) -> Seq<u8>
    decreases key.len(),
{
    if key.len() == 0 {
        key
    } else if key[0] == 0 {
        seq![0u8]
    } else {
        seq![key[0]] + key_prefix(key.drop_first())
    }
}

/// The primary-key parts, each behind a zero byte.
pub open spec fn joined(parts: Seq<Seq<u8>>) -> Seq<u8>
    decreases parts.len(),
{
    if parts.len() == 0 {
        Seq::empty()
    } else {
        joined(parts.drop_last()).push(0) + parts.last()
    }
}

/// The storage key of a row.
pub open spec fn table_key(table: Seq<char>, parts: Seq<Seq<u8>>) -> Seq<u8> {
    table_prefix_of(table) + joined(parts)
}

/// The bytes of a list of encoded parts.
pub open spec fn part_views(parts: Seq<Vec<u8>>) -> Seq<Seq<u8>> {
    parts.map_values(|p: Vec<u8>| p@)
}

/// The bytes hold no zero byte.
pub open spec fn zero_free(s: Seq<u8>) -> bool {
    forall|i: int| 0 <= i < s.len() ==> s[i] != 0
}

/// A key's prefix is a prefix of it.
pub proof fn lemma_key_prefix(key: Seq<u8>)
    ensures
        has_prefix(key, key_prefix(key)),
        key_prefix(key_prefix(key)) == key_prefix(key),
    decreases key.len(),
{
    if key.len() == 0 {
        assert(key.take(0) =~= key);
    } else if key[0] == 0 {
        assert(key.take(1) =~= seq![0u8]);
    } else {
        let t = key.drop_first();
        lemma_key_prefix(t);
        let p = key_prefix(key);
        assert(p.drop_first() =~= key_prefix(t));
        assert(key.take(p.len() as int) =~= p) by {
            assert forall|i: int| 0 <= i < p.len() implies key[i] == p[i] by {
                if i > 0 {
                    assert(t.take(key_prefix(t).len() as int)[i - 1] == key_prefix(t)[i - 1]);
                }
            }
        }
    }
}

/// Every key of a table names its table: its prefix is the table's, whatever
/// follows.
pub proof fn law_key_names_its_table(table: Seq<char>, rest: Seq<u8>)
    requires
        zero_free(encode_utf8(table)),
    ensures
        key_prefix(table_prefix_of(table) + rest) == table_prefix_of(table),
{
    lemma_prefix_stops(encode_utf8(table), rest);
    assert(table_prefix_of(table) + rest =~= encode_utf8(table) + seq![0u8] + rest);
}

proof fn lemma_prefix_stops(name: Seq<u8>, rest: Seq<u8>)
    requires
        zero_free(name),
    ensures
        key_prefix(name + seq![0u8] + rest) == name.push(0),
    decreases name.len(),
{
    let key = name + seq![0u8] + rest;
    if name.len() == 0 {
        assert(key[0] == 0);
        assert(seq![0u8] =~= name.push(0));
    } else {
        let t = name.drop_first();
        assert(key[0] == name[0]);
        assert(key.drop_first() =~= t + seq![0u8] + rest);
        assert(zero_free(t));
        lemma_prefix_stops(t, rest);
        assert(seq![name[0]] + t.push(0) =~= name.push(0));
    }
}

/// Neither part holds a zero byte, or both are of one length.
pub open spec fn delimited(a: Seq<u8>, b: Seq<u8>) -> bool {
    (zero_free(a) && zero_free(b)) || a.len() == b.len()
}

/// Rows of one table whose encoded parts differ have different keys, where
/// the parts of one column hold no zero byte or are all of one length.
pub proof fn law_table_key_is_unambiguous(
    table: Seq<char>,
    a: Seq<Seq<u8>>,
    b: Seq<Seq<u8>>,
)
    requires
        a.len() == b.len(),
        forall|i: int| 0 <= i < a.len() ==> delimited(#[trigger] a[i], b[i]),
        table_key(table, a) == table_key(table, b),
    ensures
        a == b,
{
    let n = table_prefix_of(table).len() as int;
    assert(table_key(table, a).skip(n) =~= joined(a));
    assert(table_key(table, b).skip(n) =~= joined(b));
    lemma_joined_injective(a, b);
}

proof fn lemma_joined_injective(a: Seq<Seq<u8>>, b: Seq<Seq<u8>>)
    requires
        a.len() == b.len(),
        forall|i: int| 0 <= i < a.len() ==> delimited(#[trigger] a[i], b[i]),
        joined(a) == joined(b),
    ensures
        a == b,
    decreases a.len(),
{
    if a.len() > 0 {
        let s = joined(a);
        let m = joined(a.drop_last()).len() as int;
        let n = joined(b.drop_last()).len() as int;
        let la = a.last();
        let lb = b.last();
        assert(delimited(a[a.len() - 1], b[a.len() - 1]));
        assert(s == joined(a.drop_last()).push(0) + la);
        assert(s == joined(b.drop_last()).push(0) + lb);
        assert(s.len() == m + 1 + la.len());
        assert(s.len() == n + 1 + lb.len());
        if m < n {
            assert(s[n] == 0);
            assert(s[n] == la[n - m - 1]);
        } else if n < m {
            assert(s[m] == 0);
            assert(s[m] == lb[m - n - 1]);
        }
        assert(joined(a.drop_last()) =~= s.take(m));
        assert(joined(b.drop_last()) =~= s.take(n));
        assert(la =~= s.skip(m + 1));
        assert(lb =~= s.skip(n + 1));
        assert forall|i: int| 0 <= i < a.drop_last().len() implies delimited(
            #[trigger] a.drop_last()[i],
            b.drop_last()[i],
        ) by {
            assert(a.drop_last()[i] == a[i]);
        }
        lemma_joined_injective(a.drop_last(), b.drop_last());
        assert(a =~= a.drop_last().push(la));
        assert(b =~= b.drop_last().push(lb));
    } else {
        assert(a =~= b);
    }
}

/// Builds the prefix of a table's keys.
pub fn table_prefix(table: &str) -> (r: Vec<u8>)
    ensures
        r@ == table_prefix_of(table@),
{
    let mut out: Vec<u8> = Vec::new();
    append_bytes(&mut out, table.as_bytes());
    assert(out@ =~= encode_utf8(table@));
    out.push(0);
    out
}

/// Extracts the table prefix of a storage key.
pub fn key_table_prefix(key: &[u8]) -> (r: &[u8])
    ensures
        r@ == key_prefix(key@),
{
    let mut i: usize = 0;
    assert(key@.skip(0) =~= key@);
    assert(key@.take(0) + key_prefix(key@) =~= key_prefix(key@));
    while i < key.len()
        invariant
            i <= key@.len(),
            key_prefix(key@) == key@.take(i as int) + key_prefix(key@.skip(i as int)),
        decreases key@.len() - i,
    {
        let ghost rest = key@.skip(i as int);
        assert(rest[0] == key@[i as int]);
        if key[i] == 0 {
            assert(key@.take(i as int) + seq![0u8] =~= key@.subrange(0, i + 1));
            return slice_subrange(key, 0, i + 1);
        }
        proof {
            assert(rest.drop_first() =~= key@.skip(i + 1));
            assert(key@.take(i as int) + (seq![key@[i as int]] + key_prefix(key@.skip(i + 1)))
                =~= key@.take(i + 1) + key_prefix(key@.skip(i + 1)));
        }
        i += 1;
    }
    assert(key@.take(i as int) + key_prefix(key@.skip(i as int)) =~= key@);
    key
}

/// Assembles the storage key of a row from its encoded primary-key parts.
pub fn assemble_table_key(table: &str, encoded_parts: &[Vec<u8>]) -> (r: Bytes)
    ensures
        bytes_view(r) == table_key(table@, part_views(encoded_parts@)),
{
    let mut out = table_prefix(table);
    let ghost head = out@;
    let ghost parts = part_views(encoded_parts@);
    let mut i: usize = 0;
    assert(out@ =~= head + joined(parts.take(0)));
    while i < encoded_parts.len()
        invariant
            parts == part_views(encoded_parts@),
            i <= encoded_parts@.len(),
            out@ == head + joined(parts.take(i as int)),
        decreases encoded_parts@.len() - i,
    {
        out.push(0);
        append_bytes(&mut out, encoded_parts[i].as_slice());
        proof {
            assert(parts.take(i + 1).drop_last() =~= parts.take(i as int));
            assert(parts.take(i + 1).last() == encoded_parts@[i as int]@);
            assert(out@ =~= head + joined(parts.take(i + 1)));
        }
        i += 1;
    }
    assert(parts.take(i as int) =~= parts);
    bytes_from_vec(out)
}

} // verus!
