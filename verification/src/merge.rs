//! Merging of row lists: scans, compaction and its bookkeeping.

use crate::buf::{
    bytes_copy, bytes_slice, bytes_view, compare_keys, keys_equal, lemma_lex_irreflexive,
    lemma_lex_total, lemma_lex_transitive, lex_lt, ByteMap, KeyOrder,
};
use crate::key_index::{lemma_visible_is_a_row, lookup_visible};
use crate::keys::{key_prefix, key_table_prefix};
use crate::memtable::{row_models, RowModel, VersionedRow};
use crate::version::{VersionModel, VersionedValue, OPEN_ENDED_TS};
use bytes::Bytes;
use vstd::prelude::*;

verus! {

// ── Newest version per key ────────────────────────────────────────────────

/// What a map of versions says.
pub open spec fn version_map(m: Map<Seq<u8>, VersionedValue>) -> Map<Seq<u8>, VersionModel> {
    m.map_values(|v: VersionedValue| v@)
}

/// The map after `v` was offered for `key`: it is taken where the key has no
/// version yet or an older one.
pub open spec fn with_newest(
    m: Map<Seq<u8>, VersionModel>,
    key: Seq<u8>,
    v: VersionModel,
) -> Map<Seq<u8>, VersionModel> {
    if m.contains_key(key) && v.begin_ts <= m[key].begin_ts {
        m
    } else {
        m.insert(key, v)
    }
}

/// Offers `value` for `key`, keeping the version with the greatest `begin_ts`.
pub fn insert_newest(map: &mut ByteMap<VersionedValue>, key: Bytes, value: VersionedValue)
    requires
        old(map).wf(),
    ensures
        final(map).wf(),
        version_map(final(map)@) == with_newest(
            version_map(old(map)@),
            bytes_view(key),
            value@,
        ),
{
    let better = match map.get(bytes_slice(&key)) {
        Some(current) => value.begin_ts > current.begin_ts,
        None => true,
    };
    if better {
        map.insert(key, value);
        assert(version_map(map@) =~= version_map(old(map)@).insert(bytes_view(key), value@));
    }
}

// ── Order of versions ─────────────────────────────────────────────────────

/// Which version of which key a row is.
pub open spec fn place(r: RowModel) -> (Seq<u8>, u64) {
    (r.key, r.version.begin_ts)
}

/// Rows go by key, and newest first within a key.
pub open spec fn row_lt(a: RowModel, b: RowModel) -> bool {
    lex_lt(a.key, b.key) || (a.key == b.key && a.version.begin_ts > b.version.begin_ts)
}

/// Every row comes before the ones behind it.
pub open spec fn in_order(s: Seq<RowModel>) -> bool {
    forall|i: int, j: int| 0 <= i < j < s.len() ==> row_lt(#[trigger] s[i], #[trigger] s[j])
}

/// Of every version the row that comes first in the list.
pub open spec fn first_rows(rs: Seq<RowModel>) -> Map<(Seq<u8>, u64), RowModel>
    decreases rs.len(),
{
    if rs.len() == 0 {
        Map::empty()
    } else {
        let m = first_rows(rs.drop_last());
        if m.contains_key(place(rs.last())) {
            m
        } else {
            m.insert(place(rs.last()), rs.last())
        }
    }
}

/// Some row of the list is that version.
pub open spec fn has_place(s: Seq<RowModel>, p: (Seq<u8>, u64)) -> bool {
    exists|i: int| 0 <= i < s.len() && place(#[trigger] s[i]) == p
}

/// The list holds the rows of the map, in order.
pub open spec fn lists_map(s: Seq<RowModel>, m: Map<(Seq<u8>, u64), RowModel>) -> bool {
    &&& in_order(s)
    &&& forall|i: int|
        0 <= i < s.len() ==> m.contains_key(place(#[trigger] s[i])) && m[place(s[i])] == s[i]
    &&& forall|p: (Seq<u8>, u64)| m.contains_key(p) ==> #[trigger] has_place(s, p)
}

/// `s` holds every version that occurs in `rs` once, in order; of rows that
/// are the same version, the first.
pub open spec fn lists_versions(s: Seq<RowModel>, rs: Seq<RowModel>) -> bool {
    lists_map(s, first_rows(rs))
}

/// When the version at place `i` ends: where the next newer one of its key
/// begins.
pub open spec fn true_end(s: Seq<RowModel>, i: int) -> u64 {
    if i > 0 && s[i - 1].key == s[i].key {
        s[i - 1].version.begin_ts
    } else {
        OPEN_ENDED_TS
    }
}

/// The row at place `i` with its true end.
pub open spec fn retimed(s: Seq<RowModel>, i: int) -> RowModel {
    RowModel { key: s[i].key, version: s[i].version.ending(true_end(s, i)) }
}

/// The version at place `i` is the newest of its key.
pub open spec fn newest_of_key(s: Seq<RowModel>, i: int) -> bool {
    i == 0 || s[i - 1].key != s[i].key
}

/// The version at place `i` can still be read at the watermark or later.
pub open spec fn observable(s: Seq<RowModel>, i: int, watermark: u64) -> bool {
    newest_of_key(s, i) || true_end(s, i) > watermark
}

/// The observable versions, with their true ends.
pub open spec fn collapsed(s: Seq<RowModel>, watermark: u64) -> Seq<RowModel>
    decreases s.len(),
{
    if s.len() == 0 {
        Seq::empty()
    } else {
        let n = s.len() - 1;
        let rest = collapsed(s.drop_last(), watermark);
        if observable(s, n, watermark) {
            rest.push(retimed(s, n))
        } else {
            rest
        }
    }
}

/// What merging `rs` for compaction leaves: every version that is the newest
/// of its key or that a reader at the watermark or later can still see.
pub open spec fn is_merged(out: Seq<RowModel>, rs: Seq<RowModel>, watermark: u64) -> bool {
    exists|s: Seq<RowModel>| #[trigger]
        lists_versions(s, rs) && out == collapsed(s, watermark)
}

// ── Laws ──────────────────────────────────────────────────────────────────

proof fn lemma_row_order(a: RowModel, b: RowModel, c: RowModel)
    ensures
        !row_lt(a, a),
        row_lt(a, b) && row_lt(b, c) ==> row_lt(a, c),
        place(a) == place(b) || row_lt(a, b) || row_lt(b, a),
        row_lt(a, b) ==> place(a) != place(b) && !row_lt(b, a),
{
    lemma_lex_irreflexive(a.key);
    lemma_lex_total(a.key, b.key);
    if lex_lt(a.key, b.key) && lex_lt(b.key, c.key) {
        lemma_lex_transitive(a.key, b.key, c.key);
    }
}

/// The first rows are rows of the list, and every row has one.
pub proof fn lemma_first_rows(rs: Seq<RowModel>)
    ensures
        forall|p: (Seq<u8>, u64)|
            first_rows(rs).contains_key(p) ==> place(#[trigger] first_rows(rs)[p]) == p
                && rs.contains(first_rows(rs)[p]),
        forall|i: int| 0 <= i < rs.len() ==> first_rows(rs).contains_key(place(#[trigger] rs[i])),
    decreases rs.len(),
{
    if rs.len() > 0 {
        let init = rs.drop_last();
        lemma_first_rows(init);
        assert forall|p: (Seq<u8>, u64)| first_rows(rs).contains_key(p) implies place(
            #[trigger] first_rows(rs)[p],
        ) == p && rs.contains(first_rows(rs)[p]) by {
            if first_rows(init).contains_key(p) {
                let r = first_rows(init)[p];
                let k = choose|k: int| 0 <= k < init.len() && init[k] == r;
                assert(rs[k] == r);
            } else {
                assert(rs[rs.len() - 1] == rs.last());
            }
        }
        assert forall|i: int| 0 <= i < rs.len() implies first_rows(rs).contains_key(
            place(#[trigger] rs[i]),
        ) by {
            if i < init.len() {
                assert(init[i] == rs[i]);
            }
        }
    }
}

proof fn lemma_first_rows_concat(a: Seq<RowModel>, b: Seq<RowModel>)
    ensures
        first_rows(a + b) == first_rows(b).union_prefer_right(first_rows(a)),
    decreases b.len(),
{
    if b.len() == 0 {
        assert(a + b =~= a);
        assert(first_rows(b).union_prefer_right(first_rows(a)) =~= first_rows(a));
    } else {
        lemma_first_rows_concat(a, b.drop_last());
        assert((a + b).drop_last() =~= a + b.drop_last());
        assert((a + b).last() == b.last());
        assert(first_rows(a + b) =~= first_rows(b).union_prefer_right(first_rows(a)));
    }
}

/// There is one list of the versions that occur in `rs`.
pub proof fn law_listing_is_unique(s: Seq<RowModel>, t: Seq<RowModel>, rs: Seq<RowModel>)
    requires
        lists_versions(s, rs),
        lists_versions(t, rs),
    ensures
        s == t,
{
    lemma_listing_unique(s, t, first_rows(rs));
}

proof fn lemma_listing_unique(
    s: Seq<RowModel>,
    t: Seq<RowModel>,
    m: Map<(Seq<u8>, u64), RowModel>,
)
    requires
        lists_map(s, m),
        lists_map(t, m),
    ensures
        s == t,
    decreases s.len(),
{
    if s.len() == 0 {
        if t.len() > 0 {
            assert(m.contains_key(place(t[0])));
            assert(has_place(s, place(t[0])));
        }
        assert(s =~= t);
    } else {
        let x = s.last();
        assert(m.contains_key(place(s[s.len() - 1])));
        assert(has_place(t, place(x)));
        let k = choose|k: int| 0 <= k < t.len() && place(#[trigger] t[k]) == place(x);
        assert(m[place(t[k])] == t[k]);
        assert(t[k] == x);
        let y = t.last();
        assert(m.contains_key(place(t[t.len() - 1])));
        assert(has_place(s, place(y)));
        let l = choose|l: int| 0 <= l < s.len() && place(#[trigger] s[l]) == place(y);
        assert(m[place(s[l])] == s[l]);
        assert(s[l] == y);
        if k < t.len() - 1 {
            assert(row_lt(t[k], t[t.len() - 1]));
            if l < s.len() - 1 {
                assert(row_lt(s[l], s[s.len() - 1]));
                lemma_row_order(x, y, x);
            }
            lemma_row_order(x, y, x);
        }
        assert(x == y);
        let m2 = m.remove(place(x));
        lemma_drop_listed(s, m);
        lemma_drop_listed(t, m);
        lemma_listing_unique(s.drop_last(), t.drop_last(), m2);
        assert(s =~= s.drop_last().push(x));
        assert(t =~= t.drop_last().push(y));
    }
}

proof fn lemma_drop_listed(s: Seq<RowModel>, m: Map<(Seq<u8>, u64), RowModel>)
    requires
        lists_map(s, m),
        s.len() > 0,
    ensures
        lists_map(s.drop_last(), m.remove(place(s.last()))),
{
    let init = s.drop_last();
    let m2 = m.remove(place(s.last()));
    assert forall|i: int, j: int| 0 <= i < j < init.len() implies row_lt(
        #[trigger] init[i],
        #[trigger] init[j],
    ) by {
        assert(row_lt(s[i], s[j]));
    }
    assert forall|i: int| 0 <= i < init.len() implies m2.contains_key(place(#[trigger] init[i]))
        && m2[place(init[i])] == init[i] by {
        assert(m.contains_key(place(s[i])));
        assert(row_lt(s[i], s[s.len() - 1]));
        lemma_row_order(s[i], s.last(), s.last());
    }
    assert forall|p: (Seq<u8>, u64)| m2.contains_key(p) implies #[trigger] has_place(init, p) by {
        assert(has_place(s, p));
        let i = choose|i: int| 0 <= i < s.len() && place(#[trigger] s[i]) == p;
        assert(init[i] == s[i]);
    }
}

/// What a merge keeps, row by row.
pub proof fn lemma_collapsed(s: Seq<RowModel>, watermark: u64)
    ensures
        forall|k: int|
            0 <= k < collapsed(s, watermark).len() ==> exists|i: int|
                0 <= i < s.len() && observable(s, i, watermark) && #[trigger] retimed(s, i)
                    == #[trigger] collapsed(s, watermark)[k],
        forall|i: int|
            0 <= i < s.len() && observable(s, i, watermark) ==> collapsed(s, watermark).contains(
                #[trigger] retimed(s, i),
            ),
    decreases s.len(),
{
    if s.len() > 0 {
        let init = s.drop_last();
        lemma_collapsed(init, watermark);
        let out = collapsed(s, watermark);
        let rest = collapsed(init, watermark);
        let n = s.len() - 1;
        assert forall|i: int| 0 <= i < init.len() implies #[trigger] retimed(init, i) == retimed(
            s,
            i,
        ) && observable(init, i, watermark) == observable(s, i, watermark) by {
            assert(init[i] == s[i]);
            if i > 0 {
                assert(init[i - 1] == s[i - 1]);
            }
        }
        assert forall|k: int| 0 <= k < out.len() implies exists|i: int|
            0 <= i < s.len() && observable(s, i, watermark) && #[trigger] retimed(s, i)
                == #[trigger] out[k] by {
            if k < rest.len() {
                assert(out[k] == rest[k]);
                let i = choose|i: int|
                    0 <= i < init.len() && observable(init, i, watermark) && #[trigger] retimed(
                        init,
                        i,
                    ) == rest[k];
                assert(retimed(s, i) == out[k]);
            } else {
                assert(retimed(s, n) == out[k]);
            }
        }
        assert forall|i: int| 0 <= i < s.len() && observable(s, i, watermark) implies out.contains(
            #[trigger] retimed(s, i),
        ) by {
            if i < n {
                assert(retimed(init, i) == retimed(s, i));
                assert(rest.contains(retimed(init, i)));
                let k = choose|k: int| 0 <= k < rest.len() && rest[k] == retimed(init, i);
                assert(out[k] == retimed(s, i));
            } else {
                assert(out[out.len() - 1] == retimed(s, n));
            }
        }
    }
}

/// The version at place `i` is what a reader at `ts` should see of its key:
/// the newest that does not begin after `ts`.
pub open spec fn is_read(s: Seq<RowModel>, i: int, ts: u64) -> bool {
    &&& s[i].version.begin_ts <= ts
    &&& newest_of_key(s, i) || s[i - 1].version.begin_ts > ts
}

/// Of the versions of one key, the ones before the read one begin after `ts`
/// and the ones behind it do not.
pub proof fn lemma_read_is_newest(s: Seq<RowModel>, i: int, j: int, ts: u64)
    requires
        in_order(s),
        0 <= i < s.len(),
        0 <= j < s.len(),
        s[i].key == s[j].key,
        is_read(s, i, ts),
        s[j].version.begin_ts <= ts,
    ensures
        j >= i,
        s[j].version.begin_ts <= s[i].version.begin_ts,
{
    lemma_lex_irreflexive(s[i].key);
    if j < i {
        assert(row_lt(s[j], s[i]));
        if j < i - 1 {
            assert(row_lt(s[j], s[i - 1]));
            assert(row_lt(s[i - 1], s[i]));
            lemma_same_key_between(s, j, i - 1, i);
        }
        assert(false);
    } else if i < j {
        assert(row_lt(s[i], s[j]));
    }
}

proof fn lemma_same_key_between(s: Seq<RowModel>, a: int, b: int, c: int)
    requires
        in_order(s),
        0 <= a <= b <= c < s.len(),
        s[a].key == s[c].key,
    ensures
        s[b].key == s[a].key,
{
    if a < b && b < c {
        assert(row_lt(s[a], s[b]));
        assert(row_lt(s[b], s[c]));
        lemma_lex_total(s[a].key, s[b].key);
    }
}

/// Merging for compaction changes no read: at the watermark or later, a
/// reader of the merged rows sees of every key the newest version that does
/// not begin after its snapshot, and nothing where there is none.
pub proof fn law_merge_keeps_reads(s: Seq<RowModel>, watermark: u64, key: Seq<u8>, ts: u64)
    requires
        in_order(s),
        watermark <= ts < OPEN_ENDED_TS,
    ensures
        match lookup_visible(collapsed(s, watermark), key, ts) {
            Some(v) => exists|i: int|
                0 <= i < s.len() && (#[trigger] s[i]).key == key && is_read(s, i, ts) && v
                    == retimed(s, i).version,
            None => forall|j: int|
                0 <= j < s.len() && (#[trigger] s[j]).key == key ==> s[j].version.begin_ts > ts,
        },
{
    let out = collapsed(s, watermark);
    lemma_visible_is_a_row(out, key, ts);
    lemma_collapsed(s, watermark);
    match lookup_visible(out, key, ts) {
        Some(v) => {
            let k = choose|k: int|
                0 <= k < out.len() && (#[trigger] out[k]).key == key && out[k].version == v;
            let i = choose|i: int|
                0 <= i < s.len() && observable(s, i, watermark) && #[trigger] retimed(s, i)
                    == out[k];
            assert(s[i].key == key);
        },
        None => {
            assert forall|j: int| 0 <= j < s.len() && (#[trigger] s[j]).key
                == key implies s[j].version.begin_ts > ts by {
                if s[j].version.begin_ts <= ts {
                    let i = lemma_find_read(s, j, ts);
                    assert(observable(s, i, watermark));
                    assert(out.contains(retimed(s, i)));
                    let k = choose|k: int| 0 <= k < out.len() && out[k] == retimed(s, i);
                    assert(out[k].key == key);
                    assert(out[k].version.visible_at(ts));
                }
            }
        },
    }
}

proof fn lemma_find_read(s: Seq<RowModel>, j: int, ts: u64) -> (i: int)
    requires
        in_order(s),
        0 <= j < s.len(),
        s[j].version.begin_ts <= ts,
    ensures
        0 <= i <= j,
        s[i].key == s[j].key,
        is_read(s, i, ts),
    decreases j,
{
    if j > 0 && s[j - 1].key == s[j].key && s[j - 1].version.begin_ts <= ts {
        lemma_find_read(s, j - 1, ts)
    } else {
        j
    }
}

/// Merging for compaction forgets what nobody can read: every row that it
/// leaves is the newest of its key or is still visible after the watermark.
pub proof fn law_merge_drops_superseded(s: Seq<RowModel>, watermark: u64, k: int)
    requires
        0 <= k < collapsed(s, watermark).len(),
    ensures
        collapsed(s, watermark)[k].version.end_ts > watermark || collapsed(
            s,
            watermark,
        )[k].version.end_ts == OPEN_ENDED_TS,
{
    lemma_collapsed(s, watermark);
    let i = choose|i: int|
        0 <= i < s.len() && observable(s, i, watermark) && #[trigger] retimed(s, i) == collapsed(
            s,
            watermark,
        )[k];
    assert(retimed(s, i) == collapsed(s, watermark)[k]);
}

/// The rows that a merge leaves are in order.
pub proof fn law_merged_in_order(s: Seq<RowModel>, watermark: u64)
    requires
        in_order(s),
    ensures
        in_order(collapsed(s, watermark)),
    decreases s.len(),
{
    if s.len() > 0 {
        let init = s.drop_last();
        assert forall|i: int, j: int| 0 <= i < j < init.len() implies row_lt(
            #[trigger] init[i],
            #[trigger] init[j],
        ) by {
            assert(row_lt(s[i], s[j]));
        }
        law_merged_in_order(init, watermark);
        lemma_collapsed(init, watermark);
        let out = collapsed(s, watermark);
        let rest = collapsed(init, watermark);
        let n = s.len() - 1;
        assert forall|i: int, j: int| 0 <= i < j < out.len() implies row_lt(
            #[trigger] out[i],
            #[trigger] out[j],
        ) by {
            if j < rest.len() {
                assert(row_lt(rest[i], rest[j]));
            } else {
                let a = choose|a: int|
                    0 <= a < init.len() && observable(init, a, watermark) && #[trigger] retimed(
                        init,
                        a,
                    ) == rest[i];
                assert(out[i] == retimed(init, a));
                assert(init[a] == s[a]);
                assert(row_lt(s[a], s[n]));
            }
        }
    }
}

// ── Sorting ───────────────────────────────────────────────────────────────

/// Orders two rows.
fn compare_rows(a: &VersionedRow, b: &VersionedRow) -> (r: KeyOrder)
    ensures
        r is Less <==> row_lt(a@, b@),
        r is Equal <==> place(a@) == place(b@),
        r is Greater <==> row_lt(b@, a@),
{
    proof {
        lemma_row_order(a@, b@, a@);
        lemma_row_order(b@, a@, b@);
        lemma_lex_total(a@.key, b@.key);
    }
    match compare_keys(bytes_slice(&a.key), bytes_slice(&b.key)) {
        KeyOrder::Less => KeyOrder::Less,
        KeyOrder::Greater => KeyOrder::Greater,
        KeyOrder::Equal => if a.version.begin_ts > b.version.begin_ts {
            KeyOrder::Less
        } else if a.version.begin_ts < b.version.begin_ts {
            KeyOrder::Greater
        } else {
            KeyOrder::Equal
        },
    }
}

/// What has been merged of two ordered lists up to places `i` and `j`.
spec fn merged_up_to(
    out: Seq<RowModel>,
    a: Seq<RowModel>,
    b: Seq<RowModel>,
    m: Map<(Seq<u8>, u64), RowModel>,
    i: int,
    j: int,
) -> bool {
    &&& in_order(out)
    &&& forall|k: int|
        0 <= k < out.len() ==> m.contains_key(place(#[trigger] out[k])) && m[place(out[k])] == out[k]
    &&& forall|k: int| 0 <= k < out.len() && i < a.len() ==> row_lt(#[trigger] out[k], a[i])
    &&& forall|k: int| 0 <= k < out.len() && j < b.len() ==> row_lt(#[trigger] out[k], b[j])
    &&& forall|k: int| 0 <= k < i ==> has_place(out, place(#[trigger] a[k]))
    &&& forall|k: int| 0 <= k < j ==> has_place(out, place(#[trigger] b[k]))
}

proof fn lemma_has_place_push(s: Seq<RowModel>, x: RowModel)
    ensures
        forall|p: (Seq<u8>, u64)| has_place(s, p) ==> #[trigger] has_place(s.push(x), p),
        has_place(s.push(x), place(x)),
{
    assert forall|p: (Seq<u8>, u64)| has_place(s, p) implies #[trigger] has_place(s.push(x), p) by {
        let i = choose|i: int| 0 <= i < s.len() && place(#[trigger] s[i]) == p;
        assert(s.push(x)[i] == s[i]);
    }
    assert(s.push(x)[s.len() as int] == x);
}

proof fn lemma_take_left(
    out: Seq<RowModel>,
    a: Seq<RowModel>,
    b: Seq<RowModel>,
    ma: Map<(Seq<u8>, u64), RowModel>,
    mb: Map<(Seq<u8>, u64), RowModel>,
    i: int,
    j: int,
    both: bool,
)
    requires
        lists_map(a, ma),
        lists_map(b, mb),
        0 <= i < a.len(),
        0 <= j <= b.len(),
        merged_up_to(out, a, b, mb.union_prefer_right(ma), i, j),
        both ==> j < b.len() && place(b[j]) == place(a[i]),
        !both && j < b.len() ==> row_lt(a[i], b[j]),
    ensures
        merged_up_to(
            out.push(a[i]),
            a,
            b,
            mb.union_prefer_right(ma),
            i + 1,
            if both {
                j + 1
            } else {
                j
            },
        ),
{
    let m = mb.union_prefer_right(ma);
    let x = a[i];
    let next = out.push(x);
    let j2 = if both {
        j + 1
    } else {
        j
    };
    assert(ma.contains_key(place(x)) && ma[place(x)] == x);
    lemma_has_place_push(out, x);
    assert forall|k: int| 0 <= k < next.len() && i + 1 < a.len() implies row_lt(
        #[trigger] next[k],
        a[i + 1],
    ) by {
        assert(row_lt(a[i], a[i + 1]));
        if k < out.len() {
            assert(row_lt(out[k], a[i]));
            lemma_row_order(out[k], a[i], a[i + 1]);
        }
    }
    assert forall|k: int| 0 <= k < next.len() && j2 < b.len() implies row_lt(
        #[trigger] next[k],
        b[j2],
    ) by {
        if both {
            assert(row_lt(b[j], b[j2]));
            if k < out.len() {
                assert(row_lt(out[k], b[j]));
                lemma_row_order(out[k], b[j], b[j2]);
            } else {
                lemma_same_place_lt(x, b[j], b[j2]);
            }
        } else if k < out.len() {
            assert(row_lt(out[k], b[j]));
        }
    }
    assert forall|k: int| 0 <= k < j2 implies has_place(next, place(#[trigger] b[k])) by {
        if k < j {
            assert(has_place(out, place(b[k])));
        }
    }
    assert forall|k: int| 0 <= k < i + 1 implies has_place(next, place(#[trigger] a[k])) by {
        if k < i {
            assert(has_place(out, place(a[k])));
        }
    }
}

proof fn lemma_same_place_lt(a: RowModel, b: RowModel, c: RowModel)
    requires
        place(a) == place(b),
        row_lt(b, c),
    ensures
        row_lt(a, c),
{
}

proof fn lemma_take_right(
    out: Seq<RowModel>,
    a: Seq<RowModel>,
    b: Seq<RowModel>,
    ma: Map<(Seq<u8>, u64), RowModel>,
    mb: Map<(Seq<u8>, u64), RowModel>,
    i: int,
    j: int,
)
    requires
        lists_map(a, ma),
        lists_map(b, mb),
        0 <= i <= a.len(),
        0 <= j < b.len(),
        merged_up_to(out, a, b, mb.union_prefer_right(ma), i, j),
        i < a.len() ==> row_lt(b[j], a[i]),
    ensures
        merged_up_to(out.push(b[j]), a, b, mb.union_prefer_right(ma), i, j + 1),
{
    let m = mb.union_prefer_right(ma);
    let x = b[j];
    let next = out.push(x);
    assert(mb.contains_key(place(x)) && mb[place(x)] == x);
    lemma_has_place_push(out, x);
    if ma.contains_key(place(x)) {
        assert(has_place(a, place(x)));
        let k = choose|k: int| 0 <= k < a.len() && place(#[trigger] a[k]) == place(x);
        if k < i {
            assert(has_place(out, place(a[k])));
            let q = choose|q: int| 0 <= q < out.len() && place(#[trigger] out[q]) == place(x);
            assert(row_lt(out[q], b[j]));
            lemma_row_order(out[q], x, x);
        } else {
            if k > i {
                assert(row_lt(a[i], a[k]));
                lemma_row_order(x, a[i], a[k]);
            }
            lemma_row_order(x, a[k], x);
        }
        assert(false);
    }
    assert(m.contains_key(place(x)) && m[place(x)] == x);
    assert forall|k: int| 0 <= k < next.len() && j + 1 < b.len() implies row_lt(
        #[trigger] next[k],
        b[j + 1],
    ) by {
        assert(row_lt(b[j], b[j + 1]));
        if k < out.len() {
            assert(row_lt(out[k], b[j]));
            lemma_row_order(out[k], b[j], b[j + 1]);
        }
    }
    assert forall|k: int| 0 <= k < j + 1 implies has_place(next, place(#[trigger] b[k])) by {
        if k < j {
            assert(has_place(out, place(b[k])));
        }
    }
    assert forall|k: int| 0 <= k < i implies has_place(next, place(#[trigger] a[k])) by {
        assert(has_place(out, place(a[k])));
    }
}

/// Merges two ordered lists; where both have a version, the first list's row
/// stays.
fn merge_runs(a: Vec<VersionedRow>, b: Vec<VersionedRow>, Ghost(ra): Ghost<Seq<RowModel>>, Ghost(rb): Ghost<Seq<RowModel>>) -> (r: Vec<VersionedRow>)
    requires
        lists_versions(row_models(a@), ra),
        lists_versions(row_models(b@), rb),
    ensures
        lists_versions(row_models(r@), ra + rb),
{
    let ghost ma = first_rows(ra);
    let ghost mb = first_rows(rb);
    let ghost m = mb.union_prefer_right(ma);
    let ghost sa = row_models(a@);
    let ghost sb = row_models(b@);
    let mut out: Vec<VersionedRow> = Vec::new();
    let mut i: usize = 0;
    let mut j: usize = 0;
    assert(row_models(out@) =~= Seq::<RowModel>::empty());
    while i < a.len() || j < b.len()
        invariant
            sa == row_models(a@),
            sb == row_models(b@),
            m == mb.union_prefer_right(ma),
            lists_map(sa, ma),
            lists_map(sb, mb),
            i <= a@.len(),
            j <= b@.len(),
            merged_up_to(row_models(out@), sa, sb, m, i as int, j as int),
        decreases (a@.len() - i) + (b@.len() - j),
    {
        let ghost before = row_models(out@);
        let left = if j == b.len() {
            KeyOrder::Less
        } else if i == a.len() {
            KeyOrder::Greater
        } else {
            compare_rows(&a[i], &b[j])
        };
        match left {
            KeyOrder::Less => {
                out.push(a[i].clone());
                proof {
                    assert(row_models(out@) =~= before.push(sa[i as int]));
                    lemma_take_left(before, sa, sb, ma, mb, i as int, j as int, false);
                }
                i += 1;
            },
            KeyOrder::Equal => {
                out.push(a[i].clone());
                proof {
                    assert(row_models(out@) =~= before.push(sa[i as int]));
                    lemma_take_left(before, sa, sb, ma, mb, i as int, j as int, true);
                }
                i += 1;
                j += 1;
            },
            KeyOrder::Greater => {
                out.push(b[j].clone());
                proof {
                    assert(row_models(out@) =~= before.push(sb[j as int]));
                    lemma_take_right(before, sa, sb, ma, mb, i as int, j as int);
                }
                j += 1;
            },
        }
    }
    proof {
        lemma_first_rows_concat(ra, rb);
        let s = row_models(out@);
        assert forall|p: (Seq<u8>, u64)| m.contains_key(p) implies #[trigger] has_place(s, p) by {
            if ma.contains_key(p) {
                assert(has_place(sa, p));
                let k = choose|k: int| 0 <= k < sa.len() && place(#[trigger] sa[k]) == p;
                assert(has_place(s, place(sa[k])));
            } else {
                assert(has_place(sb, p));
                let k = choose|k: int| 0 <= k < sb.len() && place(#[trigger] sb[k]) == p;
                assert(has_place(s, place(sb[k])));
            }
        }
    }
    out
}

/// Lists every version of `rows[from..to]` once, in order.
fn sort_versions(rows: &Vec<VersionedRow>, from: usize, to: usize) -> (r: Vec<VersionedRow>)
    requires
        from <= to <= rows@.len(),
    ensures
        lists_versions(
            row_models(r@),
            row_models(rows@).subrange(from as int, to as int),
        ),
    decreases to - from,
{
    let ghost all = row_models(rows@);
    if from == to {
        let r: Vec<VersionedRow> = Vec::new();
        assert(all.subrange(from as int, to as int) =~= Seq::<RowModel>::empty());
        assert(row_models(r@) =~= Seq::<RowModel>::empty());
        return r;
    }
    if to - from == 1 {
        let mut r: Vec<VersionedRow> = Vec::new();
        r.push(rows[from].clone());
        proof {
            let one = all.subrange(from as int, to as int);
            let x = all[from as int];
            assert(one =~= seq![x]);
            assert(row_models(r@) =~= seq![x]);
            assert(one.drop_last() =~= Seq::<RowModel>::empty());
            assert(one.last() == x);
            assert(first_rows(one.drop_last()) =~= Map::empty());
            assert(first_rows(one) =~= Map::empty().insert(place(x), x));
            assert forall|p: (Seq<u8>, u64)| first_rows(one).contains_key(p) implies #[trigger] has_place(
                seq![x],
                p,
            ) by {
                assert(place(seq![x][0]) == p);
            }
        }
        return r;
    }
    let mid: usize = from + (to - from) / 2;
    let left = sort_versions(rows, from, mid);
    let right = sort_versions(rows, mid, to);
    proof {
        assert(all.subrange(from as int, mid as int) + all.subrange(mid as int, to as int)
            =~= all.subrange(from as int, to as int));
    }
    merge_runs(
        left,
        right,
        Ghost(all.subrange(from as int, mid as int)),
        Ghost(all.subrange(mid as int, to as int)),
    )
}

/// Compaction merge: collapses a flat list of rows into one row per version,
/// recomputes every version's end from the versions at hand, and drops
/// superseded versions that no snapshot at or after the watermark can
/// observe. An SST freezes the ends at flush time, so a version superseded by
/// a later flush still looks open there.
pub fn dedup_superseded(rows: Vec<VersionedRow>, watermark: u64) -> (r: Vec<VersionedRow>)
    ensures
        is_merged(row_models(r@), row_models(rows@), watermark),
        in_order(row_models(r@)),
{
    let ghost rs = row_models(rows@);
    let sorted = sort_versions(&rows, 0, rows.len());
    let ghost s = row_models(sorted@);
    assert(rs.subrange(0, rs.len() as int) =~= rs);
    let mut out: Vec<VersionedRow> = Vec::new();
    let mut i: usize = 0;
    assert(row_models(out@) =~= collapsed(s.take(0), watermark));
    while i < sorted.len()
        invariant
            s == row_models(sorted@),
            i <= sorted@.len(),
            row_models(out@) == collapsed(s.take(i as int), watermark),
        decreases sorted@.len() - i,
    {
        let ghost next = s.take(i + 1);
        proof {
            assert(next.drop_last() =~= s.take(i as int));
            assert(next[i as int] == s[i as int]);
            if i > 0 {
                assert(next[i - 1] == s[i - 1]);
            }
        }
        let row = &sorted[i];
        let newest = i == 0 || !keys_equal(
            bytes_slice(&sorted[i - 1].key),
            bytes_slice(&row.key),
        );
        let end_ts: u64 = if newest {
            OPEN_ENDED_TS
        } else {
            sorted[i - 1].version.begin_ts
        };
        if newest || end_ts > watermark {
            let ghost before = row_models(out@);
            let mut kept = row.clone();
            kept.version.end_ts = end_ts;
            out.push(kept);
            assert(row_models(out@) =~= before.push(retimed(next, i as int)));
        }
        i += 1;
    }
    assert(s.take(i as int) =~= s);
    proof {
        law_merged_in_order(s, watermark);
    }
    out
}

// ── Row counts ────────────────────────────────────────────────────────────

/// How many of the rows are keys of the table with that prefix.
pub open spec fn rows_under(rs: Seq<RowModel>, prefix: Seq<u8>) -> nat
    decreases rs.len(),
{
    if rs.len() == 0 {
        0
    } else {
        rows_under(rs.drop_last(), prefix) + (if key_prefix(rs.last().key) == prefix {
            1nat
        } else {
            0
        })
    }
}

/// The map counts the rows of every table that has any.
pub open spec fn counts_rows(m: Map<Seq<u8>, usize>, rs: Seq<RowModel>) -> bool {
    forall|p: Seq<u8>|
        #![trigger m.contains_key(p)]
        #![trigger rows_under(rs, p)]
        (m.contains_key(p) <==> rows_under(rs, p) > 0) && (m.contains_key(p) ==> m[p] == rows_under(
            rs,
            p,
        ))
}

proof fn lemma_rows_under_bound(rs: Seq<RowModel>, p: Seq<u8>)
    ensures
        rows_under(rs, p) <= rs.len(),
    decreases rs.len(),
{
    if rs.len() > 0 {
        lemma_rows_under_bound(rs.drop_last(), p);
    }
}

/// Counts physical rows grouped by table prefix.
pub fn count_rows_by_prefix(rows: &[VersionedRow]) -> (r: ByteMap<usize>)
    ensures
        r.wf(),
        counts_rows(r@, row_models(rows@)),
{
    let ghost rs = row_models(rows@);
    let mut counts: ByteMap<usize> = ByteMap::new();
    let mut i: usize = 0;
    assert(counts_rows(counts@, rs.take(0)));
    while i < rows.len()
        invariant
            rs == row_models(rows@),
            i <= rows@.len(),
            counts.wf(),
            counts_rows(counts@, rs.take(i as int)),
        decreases rows@.len() - i,
    {
        let ghost here = rs.take(i as int);
        let ghost next = rs.take(i + 1);
        let ghost before = counts@;
        proof {
            assert(next.drop_last() =~= here);
            assert(next.last() == rows@[i as int]@);
        }
        let prefix = key_table_prefix(bytes_slice(&rows[i].key));
        let n: usize = match counts.get(prefix) {
            Some(n) => *n,
            None => 0,
        };
        proof {
            lemma_rows_under_bound(here, prefix@);
            assert(before.contains_key(prefix@) <==> rows_under(here, prefix@) > 0);
        }
        counts.insert(bytes_copy(prefix), n + 1);
        assert forall|p: Seq<u8>|
            #![trigger counts@.contains_key(p)]
            #![trigger rows_under(next, p)]
            (counts@.contains_key(p) <==> rows_under(next, p) > 0) && (counts@.contains_key(p)
                ==> counts@[p] == rows_under(next, p)) by {
            assert(before.contains_key(p) <==> rows_under(here, p) > 0);
        }
        i += 1;
    }
    assert(rs.take(i as int) =~= rs);
    counts
}

/// The number under a prefix, zero where there is none.
pub open spec fn count_at(m: Map<Seq<u8>, usize>, p: Seq<u8>) -> int {
    if m.contains_key(p) {
        m[p] as int
    } else {
        0
    }
}

/// The map holds the change of every count that changes.
pub open spec fn is_delta(
    d: Map<Seq<u8>, i128>,
    input: Map<Seq<u8>, usize>,
    output: Map<Seq<u8>, usize>,
) -> bool {
    forall|p: Seq<u8>|
        #![trigger d.contains_key(p)]
        ({
            let change = count_at(output, p) - count_at(input, p);
            &&& d.contains_key(p) <==> change != 0
            &&& d.contains_key(p) ==> d[p] == change
        })
}

/// Computes the net change of every table's row count: negative is a net
/// deletion.
pub fn prefix_count_delta(input: &ByteMap<usize>, output: &ByteMap<usize>) -> (r: ByteMap<i128>)
    requires
        input.wf(),
        output.wf(),
    ensures
        r.wf(),
        is_delta(r@, input@, output@),
{
    let mut delta: ByteMap<i128> = ByteMap::new();
    let mut i: usize = 0;
    proof {
        input.lemma_entries();
        assert forall|k: int| 0 <= k < input.key_seq().len() implies {
            &&& #[trigger] input@.contains_key(input.key_seq()[k])
            &&& input@[input.key_seq()[k]] == input.value_seq()[k]
        } by {
            assert(input@.contains_key(input.key_seq()[k]));
        }
    }
    while i < input.len()
        invariant
            input.wf(),
            output.wf(),
            delta.wf(),
            i <= input.key_seq().len(),
            forall|k: int|
                0 <= k < input.key_seq().len() ==> {
                    &&& #[trigger] input@.contains_key(input.key_seq()[k])
                    &&& input@[input.key_seq()[k]] == input.value_seq()[k]
                },
            forall|k: int|
                0 <= k < i ==> ({
                    let p = #[trigger] input.key_seq()[k];
                    let change = count_at(output@, p) - count_at(input@, p);
                    &&& delta@.contains_key(p) <==> change != 0
                    &&& delta@.contains_key(p) ==> delta@[p] == change
                }),
            forall|p: Seq<u8>| #[trigger]
                delta@.contains_key(p) ==> input.key_seq().take(i as int).contains(p) && delta@[p]
                    == count_at(output@, p) - count_at(input@, p) && delta@[p] != 0,
        decreases input.key_seq().len() - i,
    {
        let key = input.key_at(i);
        let ghost p = bytes_view(*key);
        let after: i128 = match output.get(bytes_slice(key)) {
            Some(n) => *n as i128,
            None => 0,
        };
        let before: i128 = *input.value_at(i) as i128;
        let change: i128 = after - before;
        let ghost old_delta = delta@;
        assert(input@.contains_key(input.key_seq()[i as int]));
        if change != 0 {
            delta.insert(key.clone(), change);
        }
        proof {
            let next = input.key_seq().take(i + 1);
            assert(next[i as int] == p);
            assert forall|q: Seq<u8>| #[trigger] delta@.contains_key(q) implies next.contains(q)
                && delta@[q] == count_at(output@, q) - count_at(input@, q) && delta@[q] != 0 by {
                if q != p {
                    assert(old_delta.contains_key(q));
                    let k = choose|k: int|
                        0 <= k < i && input.key_seq().take(i as int)[k] == q;
                    assert(next[k] == q);
                }
            }
            assert forall|k: int| 0 <= k < i + 1 implies ({
                let q = #[trigger] input.key_seq()[k];
                let change = count_at(output@, q) - count_at(input@, q);
                &&& delta@.contains_key(q) <==> change != 0
                &&& delta@.contains_key(q) ==> delta@[q] == change
            }) by {
                let q = input.key_seq()[k];
                if k == i && change == 0 && old_delta.contains_key(q) {
                    assert(old_delta[q] != 0);
                }
            }
        }
        i += 1;
    }
    let mut j: usize = 0;
    proof {
        output.lemma_entries();
        assert forall|k: int| 0 <= k < output.key_seq().len() implies {
            &&& #[trigger] output@.contains_key(output.key_seq()[k])
            &&& output@[output.key_seq()[k]] == output.value_seq()[k]
        } by {
            assert(output@.contains_key(output.key_seq()[k]));
        }
    }
    while j < output.len()
        invariant
            input.wf(),
            output.wf(),
            delta.wf(),
            j <= output.key_seq().len(),
            forall|k: int|
                0 <= k < output.key_seq().len() ==> {
                    &&& #[trigger] output@.contains_key(output.key_seq()[k])
                    &&& output@[output.key_seq()[k]] == output.value_seq()[k]
                },
            forall|p: Seq<u8>| #[trigger]
                input@.contains_key(p) ==> ({
                    let change = count_at(output@, p) - count_at(input@, p);
                    &&& delta@.contains_key(p) <==> change != 0
                }),
            forall|k: int|
                0 <= k < j ==> ({
                    let p = #[trigger] output.key_seq()[k];
                    let change = count_at(output@, p) - count_at(input@, p);
                    delta@.contains_key(p) <==> change != 0
                }),
            forall|p: Seq<u8>| #[trigger]
                delta@.contains_key(p) ==> delta@[p] == count_at(output@, p) - count_at(input@, p)
                    && delta@[p] != 0,
        decreases output.key_seq().len() - j,
    {
        let key = output.key_at(j);
        let ghost p = bytes_view(*key);
        assert(output@.contains_key(output.key_seq()[j as int]));
        let after: i128 = *output.value_at(j) as i128;
        let ghost old_delta = delta@;
        if !input.contains(bytes_slice(key)) && after != 0 {
            delta.insert(key.clone(), after);
        }
        proof {
            assert forall|k: int| 0 <= k < j + 1 implies ({
                let q = #[trigger] output.key_seq()[k];
                let change = count_at(output@, q) - count_at(input@, q);
                delta@.contains_key(q) <==> change != 0
            }) by {
                let q = output.key_seq()[k];
                if input@.contains_key(q) {
                    assert(old_delta.contains_key(q) <==> count_at(output@, q) - count_at(input@, q)
                        != 0);
                } else if old_delta.contains_key(q) {
                    assert(old_delta[q] != 0);
                }
            }
        }
        j += 1;
    }
    proof {
        assert forall|p: Seq<u8>|
            #![trigger delta@.contains_key(p)]
            ({
                let change = count_at(output@, p) - count_at(input@, p);
                &&& delta@.contains_key(p) <==> change != 0
                &&& delta@.contains_key(p) ==> delta@[p] == change
            }) by {
            if output@.contains_key(p) && !input@.contains_key(p) {
                assert(output.key_seq().contains(p));
                let k = choose|k: int| 0 <= k < output.key_seq().len() && output.key_seq()[k] == p;
                assert(output.key_seq()[k] == p);
            }
        }
    }
    delta
}

} // verus!
