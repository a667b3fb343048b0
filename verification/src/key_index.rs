//! Per-SST key index: point lookups without opening the file itself.
//!
//! A sorted, self-describing sidecar that holds every key of an SST with its
//! MVCC version metadata. Like the bloom filter it is derived data: where it is
//! missing or malformed, the SST is read instead.
//!
//! ```text
//!   magic         [u8; 4]   "KIDX"
//!   key_count     u32  LE
//!   for each key:
//!     key_len     u32  LE
//!     key_bytes   [u8; key_len]
//!     value_len   u32  LE   (0xFFFF_FFFF = tombstone)
//!     value_bytes [u8; value_len]  (omitted when tombstone)
//!     begin_ts    u64  LE
//!     end_ts      u64  LE
//! ```

use crate::buf::{
    append_bytes, bytes_copy, bytes_from_vec, bytes_slice, bytes_view, key_less, keys_equal,
    lemma_lex_irreflexive, lemma_lex_le_transitive, lemma_lex_total, lemma_lex_transitive, lex_le,
    lex_lt,
};
use crate::codec::{prefixed, push_u32, push_u64, read_u32, read_u64, take_prefixed, u32_at, u64_at};
use crate::error::{EngineError, Result};
use crate::file_io::{file_bytes, may_read_file, may_replace, FileIO};
use crate::memtable::{row_models, RowModel, VersionedRow};
use crate::version::{TxnTs, VersionModel, VersionedValue};
use bytes::Bytes;
use vstd::bytes::{
    lemma_auto_spec_u32_to_from_le_bytes, lemma_auto_spec_u64_to_from_le_bytes,
    spec_u32_to_le_bytes, spec_u64_to_le_bytes,
};
use vstd::prelude::*;
use vstd::slice::slice_subrange;

verus! {

/// Length field of a tombstone.
pub const TOMBSTONE_LEN: u32 = 0xFFFF_FFFF;

/// The magic bytes, `KIDX`.
pub open spec fn magic() -> Seq<u8> {
    seq![75u8, 73u8, 68u8, 88u8]
}

/// The row as the index holds it: without its transaction.
pub open spec fn untagged(r: RowModel) -> RowModel {
    RowModel { key: r.key, version: (VersionModel { tx_id: 0, ..r.version }) }
}

/// The rows as the index holds them.
pub open spec fn untagged_rows(rs: Seq<RowModel>) -> Seq<RowModel> {
    rs.map_values(|r: RowModel| untagged(r))
}

/// Length field and bytes of a value.
pub open spec fn value_part(value: Option<Seq<u8>>) -> Seq<u8> {
    match value {
        Some(v) => prefixed(v),
        None => spec_u32_to_le_bytes(TOMBSTONE_LEN),
    }
}

/// One entry.
pub open spec fn entry_bytes(r: RowModel) -> Seq<u8> {
    prefixed(r.key) + value_part(r.version.value) + spec_u64_to_le_bytes(r.version.begin_ts)
        + spec_u64_to_le_bytes(r.version.end_ts)
}

/// Entries, one behind the other.
pub open spec fn entries_bytes(rs: Seq<RowModel>) -> Seq<u8>
    decreases rs.len(),
{
    if rs.len() == 0 {
        Seq::empty()
    } else {
        entries_bytes(rs.drop_last()) + entry_bytes(rs.last())
    }
}

/// The whole index.
pub open spec fn index_bytes(rs: Seq<RowModel>) -> Seq<u8> {
    magic() + spec_u32_to_le_bytes(rs.len() as u32) + entries_bytes(rs)
}

/// The row's lengths fit their fields.
pub open spec fn entry_fits(r: RowModel) -> bool {
    &&& r.key.len() <= u32::MAX
    &&& r.version.value matches Some(v) ==> v.len() < u32::MAX
}

/// The index can hold the rows.
pub open spec fn rows_fit(rs: Seq<RowModel>) -> bool {
    &&& rs.len() <= u32::MAX
    &&& forall|i: int| 0 <= i < rs.len() ==> entry_fits(#[trigger] rs[i])
}

/// Returns whether an index can hold the rows.
pub fn can_index(rows: &[VersionedRow]) -> (r: bool)
    ensures
        r == rows_fit(row_models(rows@)),
{
    let ghost rs = row_models(rows@);
    let n: usize = rows.len();
    assert(n == rows@.len());
    if n as u64 > 0xFFFF_FFFF {
        return false;
    }
    let mut i: usize = 0;
    while i < n
        invariant
            n == rows@.len(),
            rs == row_models(rows@),
            i <= n <= u32::MAX,
            forall|j: int| 0 <= j < i ==> entry_fits(#[trigger] rs[j]),
        decreases n - i,
    {
        assert(rs[i as int] == rows@[i as int]@);
        let key = bytes_slice(&rows[i].key);
        let key_len: usize = key.len();
        assert(key_len == key@.len());
        if key_len as u64 > 0xFFFF_FFFF {
            assert(!entry_fits(rs[i as int]));
            return false;
        }
        if let Some(v) = &rows[i].version.value {
            let value = bytes_slice(v);
            let value_len: usize = value.len();
            assert(value_len == value@.len());
            if value_len as u64 >= 0xFFFF_FFFF {
                assert(!entry_fits(rs[i as int]));
                return false;
            }
        }
        i += 1;
    }
    true
}

/// The entry at `at`, and where it ends.
pub open spec fn entry_at(data: Seq<u8>, at: int) -> Option<(RowModel, int)> {
    if at + 4 > data.len() {
        None
    } else {
        let value_at = at + 4 + u32_at(data, at);
        if value_at + 4 > data.len() {
            None
        } else {
            let field = u32_at(data, value_at);
            let len: int = if field == TOMBSTONE_LEN {
                0
            } else {
                field as int
            };
            let end = value_at + 4 + len + 16;
            if end > data.len() {
                None
            } else {
                Some(
                    (
                        RowModel {
                            key: data.subrange(at + 4, value_at),
                            version: VersionModel {
                                value: if field == TOMBSTONE_LEN {
                                    None
                                } else {
                                    Some(data.subrange(value_at + 4, end - 16))
                                },
                                begin_ts: u64_at(data, end - 16),
                                end_ts: u64_at(data, end - 8),
                                tx_id: 0,
                            },
                        },
                        end,
                    ),
                )
            }
        }
    }
}

/// What the entries of an index say.
#[verifier::ext_equal]
pub struct IndexModel {
    /// The rows, without transactions.
    pub rows: Seq<RowModel>,
    /// Where each entry starts.
    pub offsets: Seq<int>,
    /// Where the last entry ends.
    pub end: int,
}

/// The first `n` entries; none where the bytes end too early.
pub open spec fn parse_entries(data: Seq<u8>, n: nat) -> Option<IndexModel>
    decreases n,
{
    if n == 0 {
        Some(IndexModel { rows: Seq::empty(), offsets: Seq::empty(), end: 8 })
    } else {
        match parse_entries(data, (n - 1) as nat) {
            None => None,
            Some(m) => match entry_at(data, m.end) {
                None => None,
                Some((r, end)) => Some(
                    IndexModel { rows: m.rows.push(r), offsets: m.offsets.push(m.end), end },
                ),
            },
        }
    }
}

/// The bytes are those of an index.
pub open spec fn is_index(data: Seq<u8>) -> bool {
    &&& data.len() >= 8
    &&& data.subrange(0, 4) == magic()
    &&& parse_entries(data, u32_at(data, 4) as nat) is Some
}

/// Keys never descend.
pub open spec fn rows_sorted(rs: Seq<RowModel>) -> bool {
    forall|i: int, j: int| 0 <= i <= j < rs.len() ==> lex_le(#[trigger] rs[i].key, #[trigger] rs[j].key)
}

/// The first version that the rows hold of a key.
pub open spec fn lookup(rs: Seq<RowModel>, key: Seq<u8>) -> Option<VersionModel>
    decreases rs.len(),
{
    if rs.len() == 0 {
        None
    } else if rs[0].key == key {
        Some(rs[0].version)
    } else {
        lookup(rs.drop_first(), key)
    }
}

/// The first version of a key that a reader at `ts` sees.
pub open spec fn lookup_visible(rs: Seq<RowModel>, key: Seq<u8>, ts: u64) -> Option<VersionModel>
    decreases rs.len(),
{
    if rs.len() == 0 {
        None
    } else if rs[0].key == key && rs[0].version.visible_at(ts) {
        Some(rs[0].version)
    } else {
        lookup_visible(rs.drop_first(), key, ts)
    }
}

// ── Laws and lemmas ───────────────────────────────────────────────────────

/// The first row with the key is the one that is found.
proof fn lemma_lookup_found(rs: Seq<RowModel>, key: Seq<u8>, i: int)
    requires
        0 <= i < rs.len(),
        rs[i].key == key,
        forall|j: int| 0 <= j < i ==> #[trigger] rs[j].key != key,
    ensures
        lookup(rs, key) == Some(rs[i].version),
    decreases i,
{
    if i > 0 {
        assert(rs[0].key != key);
        let t = rs.drop_first();
        assert(t[i - 1] == rs[i]);
        assert forall|j: int| 0 <= j < i - 1 implies #[trigger] t[j].key != key by {
            assert(t[j] == rs[j + 1]);
        }
        lemma_lookup_found(t, key, i - 1);
    }
}

/// A key that no row has is not found.
proof fn lemma_lookup_none(rs: Seq<RowModel>, key: Seq<u8>)
    requires
        forall|j: int| 0 <= j < rs.len() ==> #[trigger] rs[j].key != key,
    ensures
        lookup(rs, key) is None,
    decreases rs.len(),
{
    if rs.len() > 0 {
        let t = rs.drop_first();
        assert(rs[0].key != key);
        assert forall|j: int| 0 <= j < t.len() implies #[trigger] t[j].key != key by {
            assert(t[j] == rs[j + 1]);
        }
        lemma_lookup_none(t, key);
    }
}

proof fn lemma_visible_found(rs: Seq<RowModel>, key: Seq<u8>, ts: u64, i: int)
    requires
        0 <= i < rs.len(),
        rs[i].key == key,
        rs[i].version.visible_at(ts),
        forall|j: int|
            0 <= j < i ==> (#[trigger] rs[j].key != key || !rs[j].version.visible_at(ts)),
    ensures
        lookup_visible(rs, key, ts) == Some(rs[i].version),
    decreases i,
{
    if i > 0 {
        assert(rs[0].key != key || !rs[0].version.visible_at(ts));
        let t = rs.drop_first();
        assert(t[i - 1] == rs[i]);
        assert forall|j: int| 0 <= j < i - 1 implies (#[trigger] t[j].key != key
            || !t[j].version.visible_at(ts)) by {
            assert(t[j] == rs[j + 1]);
            assert(rs[j + 1].key != key || !rs[j + 1].version.visible_at(ts));
        }
        lemma_visible_found(t, key, ts, i - 1);
    }
}

proof fn lemma_visible_none(rs: Seq<RowModel>, key: Seq<u8>, ts: u64)
    requires
        forall|j: int|
            0 <= j < rs.len() ==> (#[trigger] rs[j].key != key || !rs[j].version.visible_at(ts)),
    ensures
        lookup_visible(rs, key, ts) is None,
    decreases rs.len(),
{
    if rs.len() > 0 {
        let t = rs.drop_first();
        assert(rs[0].key != key || !rs[0].version.visible_at(ts));
        assert forall|j: int| 0 <= j < t.len() implies (#[trigger] t[j].key != key
            || !t[j].version.visible_at(ts)) by {
            assert(t[j] == rs[j + 1]);
            assert(rs[j + 1].key != key || !rs[j + 1].version.visible_at(ts));
        }
        lemma_visible_none(t, key, ts);
    }
}

/// What is found is one of the rows, is visible and has the key.
pub proof fn lemma_visible_is_a_row(rs: Seq<RowModel>, key: Seq<u8>, ts: u64)
    ensures
        lookup_visible(rs, key, ts) matches Some(v) ==> v.visible_at(ts) && exists|i: int|
            0 <= i < rs.len() && (#[trigger] rs[i]).key == key && rs[i].version == v,
        lookup_visible(rs, key, ts) is None ==> forall|i: int|
            0 <= i < rs.len() && (#[trigger] rs[i]).key == key ==> !rs[i].version.visible_at(ts),
    decreases rs.len(),
{
    if rs.len() > 0 {
        let t = rs.drop_first();
        if rs[0].key == key && rs[0].version.visible_at(ts) {
            assert(rs[0].key == key);
        } else {
            lemma_visible_is_a_row(t, key, ts);
            if lookup_visible(t, key, ts) is Some {
                let i = choose|i: int|
                    0 <= i < t.len() && (#[trigger] t[i]).key == key && t[i].version
                        == lookup_visible(t, key, ts)->0;
                assert(rs[i + 1] == t[i]);
            } else {
                assert forall|i: int| 0 <= i < rs.len() && (#[trigger] rs[i]).key
                    == key implies !rs[i].version.visible_at(ts) by {
                    if i > 0 {
                        assert(t[i - 1] == rs[i]);
                    }
                }
            }
        }
    }
}

proof fn lemma_entry_reads(data: Seq<u8>, at: int, r: RowModel)
    requires
        entry_fits(r),
        0 <= at,
        at + entry_bytes(r).len() <= data.len(),
        data.subrange(at, at + entry_bytes(r).len()) == entry_bytes(r),
    ensures
        entry_at(data, at) == Some((untagged(r), at + entry_bytes(r).len())),
{
    lemma_auto_spec_u32_to_from_le_bytes();
    lemma_auto_spec_u64_to_from_le_bytes();
    let e = entry_bytes(r);
    let k = r.key.len() as int;
    let klen = r.key.len() as u32;
    assert(spec_u32_to_le_bytes(klen).len() == 4);
    assert(spec_u32_to_le_bytes(TOMBSTONE_LEN).len() == 4);
    assert(spec_u64_to_le_bytes(r.version.begin_ts).len() == 8);
    assert(spec_u64_to_le_bytes(r.version.end_ts).len() == 8);
    assert forall|i: int, j: int| 0 <= i <= j <= e.len() implies #[trigger] data.subrange(
        at + i,
        at + j,
    ) == e.subrange(i, j) by {
        assert(data.subrange(at + i, at + j) =~= data.subrange(at, at + e.len()).subrange(i, j));
    }
    assert(data.subrange(at + 0, at + 4) == e.subrange(0, 4));
    assert(e.subrange(0, 4) =~= spec_u32_to_le_bytes(klen));
    assert(data.subrange(at + 4, at + (4 + k)) == e.subrange(4, 4 + k));
    assert(e.subrange(4, 4 + k) =~= r.key);
    assert(data.subrange(at + (4 + k), at + (8 + k)) == e.subrange(4 + k, 8 + k));
    match r.version.value {
        Some(v) => {
            let n = v.len() as int;
            let vlen = v.len() as u32;
            assert(spec_u32_to_le_bytes(vlen).len() == 4);
            assert(e.subrange(4 + k, 8 + k) =~= spec_u32_to_le_bytes(vlen));
            assert(data.subrange(at + (8 + k), at + (8 + k + n)) == e.subrange(8 + k, 8 + k + n));
            assert(e.subrange(8 + k, 8 + k + n) =~= v);
        },
        None => {
            assert(e.subrange(4 + k, 8 + k) =~= spec_u32_to_le_bytes(TOMBSTONE_LEN));
        },
    }
    let n = e.len() as int;
    assert(data.subrange(at + (n - 16), at + (n - 8)) == e.subrange(n - 16, n - 8));
    assert(e.subrange(n - 16, n - 8) =~= spec_u64_to_le_bytes(r.version.begin_ts));
    assert(data.subrange(at + (n - 8), at + n) == e.subrange(n - 8, n));
    assert(e.subrange(n - 8, n) =~= spec_u64_to_le_bytes(r.version.end_ts));
}

proof fn lemma_entries_len(rs: Seq<RowModel>, n: int)
    requires
        0 <= n <= rs.len(),
    ensures
        entries_bytes(rs).len() >= entries_bytes(rs.take(n)).len(),
        entries_bytes(rs).take(entries_bytes(rs.take(n)).len() as int) == entries_bytes(rs.take(n)),
    decreases rs.len(),
{
    if n == rs.len() {
        assert(rs.take(n) =~= rs);
        assert(entries_bytes(rs).take(entries_bytes(rs).len() as int) =~= entries_bytes(rs));
    } else {
        let init = rs.drop_last();
        lemma_entries_len(init, n);
        assert(init.take(n) =~= rs.take(n));
        let cut = entries_bytes(rs.take(n)).len() as int;
        assert(entries_bytes(rs).take(cut) =~= entries_bytes(init).take(cut));
    }
}

proof fn lemma_parse_written(rs: Seq<RowModel>, n: nat)
    requires
        rows_fit(rs),
        n <= rs.len(),
    ensures
        parse_entries(index_bytes(rs), n) matches Some(m) && {
            &&& m.rows == untagged_rows(rs.take(n as int))
            &&& m.end == 8 + entries_bytes(rs.take(n as int)).len()
            &&& m.offsets.len() == n
            &&& forall|i: int|
                0 <= i < n ==> #[trigger] m.offsets[i] == 8 + entries_bytes(rs.take(i)).len()
        },
    decreases n,
{
    let data = index_bytes(rs);
    lemma_auto_spec_u32_to_from_le_bytes();
    assert(spec_u32_to_le_bytes(rs.len() as u32).len() == 4);
    if n == 0 {
        assert(parse_entries(data, 0)->0.rows =~= untagged_rows(rs.take(0)));
    } else {
        let p = (n - 1) as nat;
        lemma_parse_written(rs, p);
        let m = parse_entries(data, p)->0;
        let head = rs.take(p as int);
        let next = rs.take(n as int);
        assert(next.drop_last() =~= head);
        assert(next.last() == rs[p as int]);
        lemma_entries_len(rs, n as int);
        let e = entry_bytes(rs[p as int]);
        let at = m.end;
        assert(data.subrange(at, at + e.len()) =~= e) by {
            assert(entries_bytes(next) == entries_bytes(head) + e);
            assert forall|i: int| 0 <= i < e.len() implies data[at + i] == e[i] by {
                let off = entries_bytes(head).len() + i;
                assert(data[at + i] == entries_bytes(rs)[off]);
                assert(entries_bytes(rs).take(entries_bytes(next).len() as int)[off]
                    == entries_bytes(rs)[off]);
            }
        }
        assert(entry_fits(rs[p as int]));
        lemma_entry_reads(data, at, rs[p as int]);
        let whole = parse_entries(data, n)->0;
        assert(whole.rows =~= untagged_rows(next));
        assert forall|i: int| 0 <= i < n implies #[trigger] whole.offsets[i] == 8 + entries_bytes(
            rs.take(i),
        ).len() by {
            if i < p {
                assert(whole.offsets[i] == m.offsets[i]);
            }
        }
    }
}

/// An index read back holds the rows that it was made of, without their
/// transactions.
pub proof fn law_index_round_trip(rs: Seq<RowModel>)
    requires
        rows_fit(rs),
    ensures
        is_index(index_bytes(rs)),
        u32_at(index_bytes(rs), 4) == rs.len(),
        parse_entries(index_bytes(rs), rs.len()) matches Some(m) && m.rows == untagged_rows(rs),
{
    lemma_auto_spec_u32_to_from_le_bytes();
    assert(spec_u32_to_le_bytes(rs.len() as u32).len() == 4);
    lemma_parse_written(rs, rs.len());
    assert(rs.take(rs.len() as int) =~= rs);
    let data = index_bytes(rs);
    assert(data.subrange(0, 4) =~= magic());
    assert(data.subrange(4, 8) =~= spec_u32_to_le_bytes(rs.len() as u32));
}

/// In a sorted index the first version of a key decides what a reader finds
/// first: if it is visible, it is the one that is read.
pub proof fn law_first_visible_wins(rs: Seq<RowModel>, key: Seq<u8>, ts: u64)
    ensures
        lookup(rs, key) matches Some(v) ==> (v.visible_at(ts) ==> lookup_visible(rs, key, ts)
            == Some(v)),
        lookup(rs, key) is None ==> lookup_visible(rs, key, ts) is None,
    decreases rs.len(),
{
    if rs.len() > 0 && rs[0].key != key {
        law_first_visible_wins(rs.drop_first(), key, ts);
    }
}

proof fn lemma_parse_stops(data: Seq<u8>, n: nat, m: nat)
    requires
        n <= m,
        parse_entries(data, n) is None,
    ensures
        parse_entries(data, m) is None,
    decreases m,
{
    if n < m {
        lemma_parse_stops(data, n, (m - 1) as nat);
    }
}

proof fn lemma_parsed_entry(data: Seq<u8>, n: nat, i: int)
    requires
        parse_entries(data, n) is Some,
        0 <= i < n,
    ensures
        ({
            let m = parse_entries(data, n)->0;
            &&& m.rows.len() == n
            &&& m.offsets.len() == n
            &&& m.offsets[i] >= 8
            &&& entry_at(data, m.offsets[i]) matches Some(e) && e.0 == m.rows[i]
        }),
    decreases n,
{
    lemma_parsed_shape(data, n);
    if i < n - 1 {
        lemma_parsed_entry(data, (n - 1) as nat, i);
    } else {
        lemma_parsed_shape(data, (n - 1) as nat);
    }
}

proof fn lemma_parsed_shape(data: Seq<u8>, n: nat)
    requires
        parse_entries(data, n) is Some,
    ensures
        ({
            let m = parse_entries(data, n)->0;
            &&& m.rows.len() == n
            &&& m.offsets.len() == n
            &&& m.end >= 8
            &&& n > 0 ==> m.end <= data.len()
        }),
    decreases n,
{
    if n > 0 {
        lemma_parsed_shape(data, (n - 1) as nat);
    }
}

// ── The index ─────────────────────────────────────────────────────────────

/// In-memory representation of a key index, suitable for binary search.
#[derive(Debug)]
pub struct KeyIndex {
    /// Raw bytes of the entire index file.
    pub data: Bytes,
    /// Number of entries.
    pub count: u32,
    /// Where each entry starts within `data`.
    pub offsets: Vec<usize>,
}

impl KeyIndex {
    /// The offsets are those of the entries that the bytes hold.
    pub open spec fn wf(&self) -> bool {
        parse_entries(bytes_view(self.data), self.count as nat) matches Some(m) && {
            &&& self.offsets@.len() == self.count
            &&& forall|i: int|
                0 <= i < self.count ==> #[trigger] self.offsets@[i] as int == m.offsets[i]
        }
    }

    /// The rows that the index holds.
    pub open spec fn rows(&self) -> Seq<RowModel> {
        parse_entries(bytes_view(self.data), self.count as nat)->0.rows
    }

    /// The key that the entry at offset `i` names.
    pub open spec fn key_of(&self, i: int) -> Option<Seq<u8>> {
        match take_prefixed(bytes_view(self.data), self.offsets@[i] as int) {
            Some((key, _)) => Some(key),
            None => None,
        }
    }

    /// There are as many offsets as entries, each leads to a key, and the
    /// keys never descend.
    pub open spec fn consistent(&self) -> bool {
        if self.count == 0 {
            self.offsets@.len() == 0
        } else {
            &&& self.offsets@.len() == self.count
            &&& forall|i: int| 0 <= i < self.count ==> #[trigger] self.key_of(i) is Some
            &&& forall|i: int, j: int|
                0 <= i <= j < self.count ==> lex_le(
                    (#[trigger] self.key_of(i))->0,
                    (#[trigger] self.key_of(j))->0,
                )
        }
    }

    /// Builds a key index from rows.
    pub fn from_rows(rows: &[VersionedRow]) -> (r: Self)
        requires
            rows_fit(row_models(rows@)),
        ensures
            r.wf(),
            r.count == rows@.len(),
            bytes_view(r.data) == index_bytes(row_models(rows@)),
            r.rows() == untagged_rows(row_models(rows@)),
    {
        let ghost rs = row_models(rows@);
        assert(rows.len() == rows@.len());
        let count: u32 = rows.len() as u32;
        let mut data: Vec<u8> = Vec::new();
        data.push(75);
        data.push(73);
        data.push(68);
        data.push(88);
        assert(data@ =~= magic());
        push_u32(&mut data, count);
        let ghost head = data@;
        assert(head.len() == 8) by {
            lemma_auto_spec_u32_to_from_le_bytes();
            assert(spec_u32_to_le_bytes(count).len() == 4);
        }
        let mut offsets: Vec<usize> = Vec::new();
        let mut i: usize = 0;
        assert(data@ =~= head + entries_bytes(rs.take(0)));
        while i < rows.len()
            invariant
                rs == row_models(rows@),
                rows_fit(rs),
                i <= rows@.len(),
                head.len() == 8,
                data@ == head + entries_bytes(rs.take(i as int)),
                offsets@.len() == i,
                forall|j: int|
                    0 <= j < i ==> #[trigger] offsets@[j] as int == 8 + entries_bytes(
                        rs.take(j),
                    ).len(),
            decreases rows@.len() - i,
        {
            let row = &rows[i];
            assert(rs[i as int] == row@);
            assert(entry_fits(rs[i as int]));
            offsets.push(data.len());
            push_entry(&mut data, row);
            proof {
                let next = rs.take(i + 1);
                assert(next.drop_last() =~= rs.take(i as int));
                assert(data@ =~= head + entries_bytes(next));
            }
            i += 1;
        }
        assert(rs.take(i as int) =~= rs);
        proof {
            law_index_round_trip(rs);
            lemma_parse_written(rs, rs.len());
        }
        KeyIndex { data: bytes_from_vec(data), count, offsets }
    }

    /// Parses raw bytes into an index; `None` where they are malformed.
    pub fn from_bytes(data: &[u8]) -> (r: Option<Self>)
        ensures
            r is Some <==> is_index(data@),
            r matches Some(index) ==> {
                &&& index.wf()
                &&& index.count == u32_at(data@, 4)
                &&& bytes_view(index.data) == data@
            },
    {
        if data.len() < 8 {
            return None;
        }
        let ok = data[0] == 75 && data[1] == 73 && data[2] == 68 && data[3] == 88;
        proof {
            let m = data@.subrange(0, 4);
            if ok {
                assert(m =~= magic());
            } else {
                assert(m[0] == data@[0] && m[1] == data@[1] && m[2] == data@[2] && m[3] == data@[3]);
                assert(magic()[0] == 75 && magic()[1] == 73 && magic()[2] == 68 && magic()[3] == 88);
            }
        }
        if !ok {
            return None;
        }
        let count: u32 = read_u32(data, 4);
        let mut offsets: Vec<usize> = Vec::new();
        let mut cursor: usize = 8;
        let mut i: u32 = 0;
        while i < count
            invariant
                i <= count,
                data@.len() >= 8,
                count == u32_at(data@, 4),
                8 <= cursor <= data@.len(),
                parse_entries(data@, i as nat) matches Some(m) && {
                    &&& m.end == cursor
                    &&& m.offsets.len() == i
                    &&& offsets@.len() == i
                    &&& forall|j: int| 0 <= j < i ==> #[trigger] offsets@[j] as int == m.offsets[j]
                },
            decreases count - i,
        {
            let ghost before = parse_entries(data@, i as nat)->0;
            match entry_end(data, cursor) {
                None => {
                    proof {
                        lemma_parse_stops(data@, (i + 1) as nat, count as nat);
                    }
                    return None;
                },
                Some(end) => {
                    offsets.push(cursor);
                    proof {
                        let after = parse_entries(data@, (i + 1) as nat)->0;
                        assert(after.offsets == before.offsets.push(before.end));
                    }
                    cursor = end;
                },
            }
            i += 1;
        }
        Some(KeyIndex { data: bytes_copy(data), count, offsets })
    }

    /// Index of the first entry whose key is not before `key`.
    fn lower_bound(&self, key: &[u8]) -> (r: usize)
        requires
            self.wf(),
        ensures
            r <= self.count,
            rows_sorted(self.rows()) ==> {
                &&& forall|i: int| 0 <= i < r ==> lex_lt(#[trigger] self.rows()[i].key, key@)
                &&& forall|i: int|
                    r <= i < self.count ==> !lex_lt(#[trigger] self.rows()[i].key, key@)
            },
    {
        let mut lo: usize = 0;
        let mut hi: usize = self.offsets.len();
        proof {
            lemma_parsed_shape(bytes_view(self.data), self.count as nat);
        }
        while lo < hi
            invariant
                self.wf(),
                self.rows().len() == self.count,
                lo <= hi <= self.count,
                rows_sorted(self.rows()) ==> {
                    &&& forall|i: int| 0 <= i < lo ==> lex_lt(#[trigger] self.rows()[i].key, key@)
                    &&& forall|i: int|
                        hi <= i < self.count ==> !lex_lt(#[trigger] self.rows()[i].key, key@)
                },
            decreases hi - lo,
        {
            let mid: usize = lo + (hi - lo) / 2;
            let entry_key = self.key_at(mid);
            if key_less(entry_key, key) {
                proof {
                    if rows_sorted(self.rows()) {
                        assert forall|i: int| 0 <= i < mid + 1 implies lex_lt(
                            #[trigger] self.rows()[i].key,
                            key@,
                        ) by {
                            let a = self.rows()[i].key;
                            let b = self.rows()[mid as int].key;
                            assert(lex_le(a, b));
                            if a != b {
                                lemma_lex_transitive(a, b, key@);
                            }
                        }
                    }
                }
                lo = mid + 1;
            } else {
                proof {
                    if rows_sorted(self.rows()) {
                        assert forall|i: int| mid <= i < self.count implies !lex_lt(
                            #[trigger] self.rows()[i].key,
                            key@,
                        ) by {
                            let a = self.rows()[mid as int].key;
                            let b = self.rows()[i].key;
                            assert(lex_le(a, b));
                            if lex_lt(b, key@) && a != b {
                                lemma_lex_transitive(a, b, key@);
                            }
                        }
                    }
                }
                hi = mid;
            }
        }
        lo
    }

    /// The key of entry `i`.
    fn key_at(&self, i: usize) -> (r: &[u8])
        requires
            self.wf(),
            i < self.count,
        ensures
            r@ == self.rows()[i as int].key,
    {
        proof {
            lemma_parsed_entry(bytes_view(self.data), self.count as nat, i as int);
        }
        let data = bytes_slice(&self.data);
        assert(data.len() == data@.len());
        let at: usize = self.offsets[i];
        let key_len: usize = read_u32(data, at) as usize;
        slice_subrange(data, at + 4, at + 4 + key_len)
    }

    /// The version of entry `i`; it names no transaction.
    fn version_at(&self, i: usize) -> (r: VersionedValue)
        requires
            self.wf(),
            i < self.count,
        ensures
            r@ == self.rows()[i as int].version,
    {
        proof {
            lemma_parsed_entry(bytes_view(self.data), self.count as nat, i as int);
        }
        let data = bytes_slice(&self.data);
        assert(data.len() == data@.len());
        let at: usize = self.offsets[i];
        let key_len: usize = read_u32(data, at) as usize;
        let value_at: usize = at + 4 + key_len;
        let field: u32 = read_u32(data, value_at);
        if field == TOMBSTONE_LEN {
            VersionedValue {
                value: None,
                begin_ts: read_u64(data, value_at + 4),
                end_ts: read_u64(data, value_at + 12),
                tx_id: 0,
            }
        } else {
            let end: usize = value_at + 4 + field as usize;
            VersionedValue {
                value: Some(bytes_copy(slice_subrange(data, value_at + 4, end))),
                begin_ts: read_u64(data, end),
                end_ts: read_u64(data, end + 8),
                tx_id: 0,
            }
        }
    }

    /// Binary search for `key`. Where the keys are sorted, returns the first
    /// version that the index holds of it. The caller is responsible for
    /// visibility filtering.
    pub fn get(&self, key: &[u8]) -> (r: Option<VersionedValue>)
        requires
            self.wf(),
        ensures
            rows_sorted(self.rows()) ==> match r {
                Some(v) => lookup(self.rows(), key@) == Some(v@),
                None => lookup(self.rows(), key@) is None,
            },
            r matches Some(v) ==> exists|i: int|
                0 <= i < self.count && (#[trigger] self.rows()[i]).key == key@
                    && self.rows()[i].version == v@,
    {
        let i: usize = self.lower_bound(key);
        proof {
            lemma_parsed_shape(bytes_view(self.data), self.count as nat);
            lemma_lex_irreflexive(key@);
        }
        if i < self.offsets.len() {
            let found = keys_equal(self.key_at(i), key);
            if found {
                proof {
                    if rows_sorted(self.rows()) {
                        lemma_lookup_found(self.rows(), key@, i as int);
                    }
                }
                return Some(self.version_at(i));
            }
        }
        proof {
            if rows_sorted(self.rows()) {
                assert forall|j: int| 0 <= j < self.rows().len() implies #[trigger] self.rows()[j].key
                    != key@ by {
                    if i < j {
                        let a = self.rows()[i as int].key;
                        let b = self.rows()[j].key;
                        assert(lex_le(a, b));
                        if b == key@ {
                            assert(lex_lt(a, key@));
                            assert(!lex_lt(self.rows()[i as int].key, key@));
                        }
                    }
                }
                lemma_lookup_none(self.rows(), key@);
            }
        }
        None
    }

    /// The first version of `key` that a reader at `snapshot_ts` sees.
    pub fn get_visible(&self, key: &[u8], snapshot_ts: TxnTs) -> (r: Option<VersionedValue>)
        requires
            self.wf(),
        ensures
            rows_sorted(self.rows()) ==> match r {
                Some(v) => lookup_visible(self.rows(), key@, snapshot_ts) == Some(v@),
                None => lookup_visible(self.rows(), key@, snapshot_ts) is None,
            },
            r matches Some(v) ==> v@.visible_at(snapshot_ts),
    {
        let first: usize = self.lower_bound(key);
        let mut i: usize = first;
        let n: usize = self.offsets.len();
        let ghost rs = self.rows();
        proof {
            lemma_parsed_shape(bytes_view(self.data), self.count as nat);
            lemma_lex_irreflexive(key@);
        }
        while i < n
            invariant
                self.wf(),
                rs == self.rows(),
                self.rows().len() == self.count,
                n == self.count,
                first <= i <= n,
                rows_sorted(self.rows()) ==> forall|j: int|
                    0 <= j < first ==> lex_lt(#[trigger] self.rows()[j].key, key@),
                rows_sorted(self.rows()) ==> forall|j: int|
                    first <= j < n ==> !lex_lt(#[trigger] self.rows()[j].key, key@),
                !lex_lt(key@, key@),
                forall|j: int|
                    first <= j < i ==> (#[trigger] rs[j]).key == key@ && !rs[j].version.visible_at(
                        snapshot_ts,
                    ),
            decreases n - i,
        {
            if !keys_equal(self.key_at(i), key) {
                proof {
                    if rows_sorted(self.rows()) {
                    assert forall|j: int| 0 <= j < self.rows().len() implies (
                    #[trigger] self.rows()[j].key != key@ || !self.rows()[j].version.visible_at(
                        snapshot_ts,
                    )) by {
                        if i <= j && self.rows()[j].key == key@ {
                            let a = self.rows()[i as int].key;
                            assert(lex_le(a, self.rows()[j].key));
                            assert(lex_lt(a, key@));
                        }
                    }
                    lemma_visible_none(self.rows(), key@, snapshot_ts);
                    }
                }
                return None;
            }
            let v = self.version_at(i);
            if v.visible_at(snapshot_ts) {
                proof {
                    if rows_sorted(self.rows()) {
                        lemma_visible_found(self.rows(), key@, snapshot_ts, i as int);
                    }
                }
                return Some(v);
            }
            assert(rs[i as int].key == key@ && rs[i as int].version == v@);
            i += 1;
        }
        proof {
            if rows_sorted(self.rows()) {
                lemma_visible_none(self.rows(), key@, snapshot_ts);
            }
        }
        None
    }

    /// Validates the internal invariants: offsets, count and key order.
    pub fn assert_invariants(&self) -> (r: bool)
        ensures
            r == self.consistent(),
    {
        if self.count == 0 {
            return self.offsets.len() == 0;
        }
        if self.offsets.len() as u64 != self.count as u64 {
            return false;
        }
        let data = bytes_slice(&self.data);
        assert(data.len() == data@.len());
        let n: usize = self.offsets.len();
        let mut i: usize = 0;
        let mut last_at: usize = 0;
        let mut last_end: usize = 0;
        while i < n
            invariant
                data@ == bytes_view(self.data),
                data@.len() <= usize::MAX,
                self.count != 0,
                n == self.count,
                n == self.offsets@.len(),
                i <= n,
                forall|k: int| 0 <= k < i ==> #[trigger] self.key_of(k) is Some,
                forall|k: int, j: int|
                    0 <= k <= j < i ==> lex_le(
                        (#[trigger] self.key_of(k))->0,
                        (#[trigger] self.key_of(j))->0,
                    ),
                i > 0 ==> last_at <= last_end <= data@.len() && self.key_of(i - 1)->0
                    == data@.subrange(last_at as int, last_end as int),
            decreases n - i,
        {
            let at: usize = self.offsets[i];
            let ghost this = self.key_of(i as int);
            if data.len() < 4 || at > data.len() - 4 {
                assert(this is None);
                return false;
            }
            let key_len: usize = read_u32(data, at) as usize;
            if key_len > data.len() - 4 - at {
                assert(this is None);
                return false;
            }
            let key = slice_subrange(data, at + 4, at + 4 + key_len);
            assert(this->0 == key@);
            if i > 0 {
                let last = slice_subrange(data, last_at, last_end);
                if key_less(key, last) {
                    proof {
                        lemma_lex_irreflexive(key@);
                        if lex_le(last@, key@) && last@ != key@ {
                            lemma_lex_transitive(key@, last@, key@);
                        }
                        assert(!lex_le(self.key_of(i - 1)->0, self.key_of(i as int)->0));
                    }
                    return false;
                }
                proof {
                    lemma_lex_total(last@, key@);
                    assert forall|k: int, j: int| 0 <= k <= j < i + 1 implies lex_le(
                        (#[trigger] self.key_of(k))->0,
                        (#[trigger] self.key_of(j))->0,
                    ) by {
                        if j == i && k < i {
                            assert(lex_le(self.key_of(k)->0, self.key_of(i - 1)->0));
                            lemma_lex_le_transitive(self.key_of(k)->0, last@, key@);
                        }
                    }
                }
            }
            last_at = at + 4;
            last_end = at + 4 + key_len;
            i += 1;
        }
        true
    }

    /// Writes the index to the file `path`.
    pub fn write_to<F: FileIO>(&self, file: &mut F, path: &str) -> (r: Result<()>)
        requires
            old(file).wf(),
        ensures
            final(file).wf(),
            final(file).current() == old(file).current(),
            r is Ok ==> final(file).files() == old(file).files().insert(
                path@,
                bytes_view(self.data),
            ),
            r matches Err(e) ==> e is Io && (final(file).files() == old(file).files() ||
                final(file).files() == old(file).files().insert(path@, bytes_view(self.data))),
            may_replace(*old(file), path@, bytes_view(self.data), r is Ok),
    {
        match file.write_atomic(path, bytes_slice(&self.data)) {
            Ok(()) => Ok(()),
            Err(e) => Err(EngineError::Io(e)),
        }
    }

    /// Reads and decodes the index in `path`; `None` when it cannot be read or
    /// is malformed.
    pub fn read_from<F: FileIO>(file: &mut F, path: &str) -> (r: Option<Self>)
        requires
            old(file).wf(),
        ensures
            final(file).wf(),
            final(file).current() == old(file).current(),
            final(file).files() == old(file).files(),
            ({
                let bytes = file_bytes(old(file).files(), path@);
                r matches Some(index) ==> {
                    &&& is_index(bytes)
                    &&& index.wf()
                    &&& index.count == u32_at(bytes, 4)
                    &&& bytes_view(index.data) == bytes
                }
            }),
            exists|read: bool| #[trigger]
                may_read_file(*old(file), path@, read) && (r is Some <==> read
                    && is_index(file_bytes(old(file).files(), path@))),
    {
        let content = file.read_file(path);
        assert(may_read_file(*old(file), path@, content is Ok));
        match content {
            Ok(bytes) => KeyIndex::from_bytes(bytes.as_slice()),
            Err(_) => None,
        }
    }
}

impl Clone for KeyIndex {
    fn clone(&self) -> (r: Self)
        ensures
            bytes_view(r.data) == bytes_view(self.data),
            r.count == self.count,
            r.offsets@ == self.offsets@,
    {
        let mut offsets: Vec<usize> = Vec::new();
        offsets.extend_from_slice(self.offsets.as_slice());
        assert(offsets@ =~= self.offsets@);
        KeyIndex { data: self.data.clone(), count: self.count, offsets }
    }
}

fn push_entry(data: &mut Vec<u8>, row: &VersionedRow)
    requires
        entry_fits(row@),
    ensures
        final(data)@ == old(data)@ + entry_bytes(row@),
{
    let key = bytes_slice(&row.key);
    assert(key.len() == key@.len());
    push_u32(data, key.len() as u32);
    append_bytes(data, key);
    match &row.version.value {
        Some(v) => {
            let v = bytes_slice(v);
            assert(v.len() == v@.len());
            push_u32(data, v.len() as u32);
            append_bytes(data, v);
        },
        None => {
            push_u32(data, TOMBSTONE_LEN);
        },
    }
    push_u64(data, row.version.begin_ts);
    push_u64(data, row.version.end_ts);
    assert(data@ =~= old(data)@ + entry_bytes(row@));
}

/// Where the entry at `cursor` ends.
fn entry_end(data: &[u8], cursor: usize) -> (r: Option<usize>)
    requires
        cursor <= data@.len(),
    ensures
        match r {
            Some(end) => entry_at(data@, cursor as int) matches Some(e) && e.1 == end && cursor
                <= end <= data@.len(),
            None => entry_at(data@, cursor as int) is None,
        },
{
    assert(data.len() == data@.len());
    let rest: usize = data.len() - cursor;
    if rest < 4 {
        return None;
    }
    let key_len: usize = read_u32(data, cursor) as usize;
    let rest: usize = rest - 4;
    if rest < 4 || key_len > rest - 4 {
        return None;
    }
    let value_at: usize = cursor + 4 + key_len;
    let field: u32 = read_u32(data, value_at);
    let len: usize = if field == TOMBSTONE_LEN {
        0
    } else {
        field as usize
    };
    let rest: usize = rest - key_len - 4;
    if rest < 16 || len > rest - 16 {
        return None;
    }
    Some(value_at + 4 + len + 16)
}

} // verus!
