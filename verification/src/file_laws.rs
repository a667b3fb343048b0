//! What lookups in files, totals over files and texts of numbers come down to.

use crate::batches::{are_batches, effective_size, nulls_allowed, stray_null};
use crate::bloom::{bit_at, probe_bit, spec_djb2, spec_fnv1a, BloomFilter};
use crate::buf::{bytes_view, lex_le};
use crate::fault_injector::{FaultAction, FaultRegistry, FaultSource};
use crate::key_index::{lookup, lookup_visible, rows_sorted, KeyIndex};
use crate::keys::{joined, key_prefix, table_key, table_prefix_of};
use crate::memtable::{applicable, applicable_prefix, row_models, RowModel, VersionedRow};
use crate::row_codec::{pick, pick_or_null};
use crate::scalar::{bare_null, ScalarModel};
use crate::schema::{ColumnBatch, FieldModel};
use crate::sst_format::ZoneMap;
use crate::summaries::{in_zone, recorded_bytes, zones_of};
use crate::table_scan::schema_for;
use crate::table_schemas::{map_of, type_named, FieldTextModel};
use crate::tables::{failures, newest_commit};
use crate::tables_model::TablesModel;
use crate::text::{decimal, hex_byte};
use crate::version::{VersionModel, VersionedValue};
use crate::vortex_sst::{handle_for, SstHandle};
use crate::wal::{batch_bytes, commit_model, frame_bytes, frames, group_bytes, OpType, RecordModel};
use vstd::prelude::*;

verus! {

// ── Lookups ───────────────────────────────────────────────────────────────

/// A lookup in rows finds the first row of the key, and nothing only where no row
/// has the key.
pub proof fn law_lookup_is_the_first_of_its_key(rs: Seq<RowModel>, key: Seq<u8>) -> (i: int)
    ensures
        lookup(rs, key) matches Some(v) ==> {
            &&& 0 <= i < rs.len()
            &&& rs[i].key == key
            &&& rs[i].version == v
            &&& forall|j: int| 0 <= j < i ==> (#[trigger] rs[j]).key != key
        },
        lookup(rs, key) is None ==> forall|j: int|
            0 <= j < rs.len() ==> (#[trigger] rs[j]).key != key,
    decreases rs.len(),
{
    if rs.len() == 0 || rs[0].key == key {
        0
    } else {
        let t = rs.drop_first();
        let i = law_lookup_is_the_first_of_its_key(t, key);
        assert forall|j: int| 1 <= j < rs.len() implies (#[trigger] rs[j]) == t[j - 1] by {}
        if lookup(t, key) is Some {
            assert(rs[i + 1] == t[i]);
            assert forall|j: int| 0 <= j < i + 1 implies (#[trigger] rs[j]).key != key by {
                if j > 0 {
                    assert(t[j - 1].key != key);
                }
            }
        } else {
            assert forall|j: int| 0 <= j < rs.len() implies (#[trigger] rs[j]).key != key by {
                if j > 0 {
                    assert(t[j - 1].key != key);
                }
            }
        }
        i + 1
    }
}

/// The reader at `ts` sees the version: it has begun and not ended.
pub open spec fn is_seen(v: VersionModel, ts: u64) -> bool {
    v.begin_ts <= ts && ts < v.end_ts
}

/// A lookup at a time finds the first row of the key that is seen then, and nothing
/// only where no row of the key is.
pub proof fn law_lookup_in_time_is_the_first_seen(
    rs: Seq<RowModel>,
    key: Seq<u8>,
    ts: u64,
) -> (i: int)
    ensures
        lookup_visible(rs, key, ts) matches Some(v) ==> {
            &&& 0 <= i < rs.len()
            &&& rs[i].key == key
            &&& rs[i].version == v
            &&& is_seen(v, ts)
            &&& forall|j: int|
                0 <= j < i ==> !((#[trigger] rs[j]).key == key && is_seen(rs[j].version, ts))
        },
        lookup_visible(rs, key, ts) is None ==> forall|j: int|
            0 <= j < rs.len() ==> !((#[trigger] rs[j]).key == key && is_seen(rs[j].version, ts)),
    decreases rs.len(),
{
    if rs.len() == 0 || (rs[0].key == key && is_seen(rs[0].version, ts)) {
        0
    } else {
        let t = rs.drop_first();
        let i = law_lookup_in_time_is_the_first_seen(t, key, ts);
        assert forall|j: int| 1 <= j < rs.len() implies (#[trigger] rs[j]) == t[j - 1] by {}
        if lookup_visible(t, key, ts) is Some {
            assert(rs[i + 1] == t[i]);
            assert forall|j: int| 0 <= j < i + 1 implies !((#[trigger] rs[j]).key == key && is_seen(
                rs[j].version,
                ts,
            )) by {
                if j > 0 {
                    assert(!(t[j - 1].key == key && is_seen(t[j - 1].version, ts)));
                }
            }
        } else {
            assert forall|j: int| 0 <= j < rs.len() implies !((#[trigger] rs[j]).key == key
                && is_seen(rs[j].version, ts)) by {
                if j > 0 {
                    assert(!(t[j - 1].key == key && is_seen(t[j - 1].version, ts)));
                }
            }
        }
        i + 1
    }
}

/// An index in order gives a reader the first version of the key that is seen at
/// its time, and nothing only where none is.
pub proof fn law_index_gives_the_first_seen(
    index: &KeyIndex,
    key: &[u8],
    ts: u64,
    r: Option<VersionedValue>,
) -> (i: int)
    requires
        call_ensures(KeyIndex::get_visible, (index, key, ts), r),
        rows_sorted(index.rows()),
    ensures
        r matches Some(v) ==> {
            &&& 0 <= i < index.rows().len()
            &&& index.rows()[i].key == key@
            &&& index.rows()[i].version == v@
            &&& is_seen(v@, ts)
            &&& forall|j: int|
                0 <= j < i ==> !((#[trigger] index.rows()[j]).key == key@ && is_seen(
                    index.rows()[j].version,
                    ts,
                ))
        },
        r is None ==> forall|j: int|
            0 <= j < index.rows().len() ==> !((#[trigger] index.rows()[j]).key == key@ && is_seen(
                index.rows()[j].version,
                ts,
            )),
{
    law_lookup_in_time_is_the_first_seen(index.rows(), key@, ts)
}

// ── Filters ───────────────────────────────────────────────────────────────

/// Both hashes take every byte of a key in turn, from their first value on; keys
/// that differ in their last byte alone hash differently.
pub proof fn law_hashes_take_every_byte(s: Seq<u8>, b: u8, c: u8)
    ensures
        spec_fnv1a(Seq::empty()) == 0xcbf2_9ce4_8422_2325,
        spec_djb2(Seq::empty()) == 5381,
        spec_fnv1a(s.push(b)) == ((spec_fnv1a(s) ^ (b as u64)) * 0x100_0000_01b3)
            % 0x1_0000_0000_0000_0000,
        spec_djb2(s.push(b)) == (spec_djb2(s) * 33 + b) % 0x1_0000_0000_0000_0000,
        b != c ==> spec_djb2(s.push(b)) != spec_djb2(s.push(c)),
{
    assert(spec_fnv1a(Seq::<u8>::empty()) == 0xcbf2_9ce4_8422_2325);
    assert(spec_djb2(Seq::<u8>::empty()) == 5381);
    assert(s.push(b).drop_last() =~= s);
    assert(s.push(c).drop_last() =~= s);
}

/// A filter says that it may hold a key exactly where the bit of each of the key's
/// probes is set: probe `p` is the first hash and `p` times the second, taken
/// within the filter's bits.
pub proof fn law_filter_asks_every_probe(f: &BloomFilter, key: &[u8], r: bool)
    requires
        call_ensures(BloomFilter::contains, (f, key), r),
        f.num_hashes > 0,
    ensures
        r <==> forall|p: int|
            0 <= p < f.num_hashes ==> bit_at(
                f.bits@,
                #[trigger] probe_place(key@, p, f.num_bits),
            ),
{
    assert forall|p: int| 0 <= p < f.num_hashes implies bit_at(
        f.bits@,
        #[trigger] probe_place(key@, p, f.num_bits),
    ) == bit_at(f.bits@, probe_bit(key@, p, f.num_bits) as int) by {}
    if r {
        assert forall|p: int| 0 <= p < f.num_hashes implies bit_at(
            f.bits@,
            #[trigger] probe_place(key@, p, f.num_bits),
        ) by {
            assert(bit_at(f.bits@, probe_bit(key@, p, f.num_bits) as int));
        }
    } else {
        let p = choose|p: int|
            0 <= p < f.num_hashes && !bit_at(
                f.bits@,
                #[trigger] probe_bit(key@, p, f.num_bits) as int,
            );
        assert(!bit_at(f.bits@, probe_place(key@, p, f.num_bits)));
    }
}

/// The place of probe `p` of a key among so many bits.
pub open spec fn probe_place(key: Seq<u8>, p: int, num_bits: u64) -> int {
    let h = ((spec_fnv1a(key) + (p * spec_djb2(key)) % 0x1_0000_0000_0000_0000)
        % 0x1_0000_0000_0000_0000) as u64;
    (h & ((num_bits - 1) as u64)) as int
}

// ── Totals ────────────────────────────────────────────────────────────────

/// The newest commit of rows is that of one of them, and none is newer.
pub proof fn law_newest_commit_is_the_greatest(rs: Seq<RowModel>, i: int)
    requires
        0 <= i < rs.len(),
    ensures
        rs[i].version.begin_ts <= newest_commit(rs),
        exists|j: int| 0 <= j < rs.len() && (#[trigger] rs[j]).version.begin_ts == newest_commit(rs),
    decreases rs.len(),
{
    let init = rs.drop_last();
    assert(rs.last() == rs[rs.len() - 1]);
    if init.len() > 0 {
        let k = if i < init.len() {
            i
        } else {
            0
        };
        law_newest_commit_is_the_greatest(init, k);
        assert(init[k] == rs[k]);
        let j = choose|j: int|
            0 <= j < init.len() && (#[trigger] init[j]).version.begin_ts == newest_commit(init);
        assert(rs[j].version.begin_ts == newest_commit(init));
    } else {
        assert(newest_commit(init) == 0);
    }
}

/// Every file that could not be read is a failure, and no other.
pub proof fn law_failures_are_the_unreadable(readable: Seq<bool>, n: int)
    requires
        0 <= n <= readable.len(),
    ensures
        failures(readable, n) == readable.take(n).filter(|b: bool| !b).len(),
    decreases n,
{
    reveal(Seq::filter);
    if n > 0 {
        law_failures_are_the_unreadable(readable, n - 1);
        assert(readable.take(n).drop_last() =~= readable.take(n - 1));
    }
}

/// Recorded sizes add up file by file; a file without a record counts for nothing.
pub proof fn law_recorded_bytes_add_up(m: TablesModel, a: Seq<u64>, b: Seq<u64>, id: u64)
    ensures
        recorded_bytes(m, Seq::empty()) == 0,
        m.version.meta.contains_key(id) ==> recorded_bytes(m, seq![id])
            == m.version.meta[id].bytes,
        !m.version.meta.contains_key(id) ==> recorded_bytes(m, seq![id]) == 0,
        recorded_bytes(m, a + b) == recorded_bytes(m, a) + recorded_bytes(m, b),
    decreases b.len(),
{
    assert(recorded_bytes(m, Seq::<u64>::empty()) == 0);
    assert(seq![id].drop_last() =~= Seq::<u64>::empty());
    if b.len() == 0 {
        assert(a + b =~= a);
    } else {
        law_recorded_bytes_add_up(m, a, b.drop_last(), id);
        assert((a + b).drop_last() =~= a + b.drop_last());
    }
}

/// The zone maps of a table come from exactly the files that have a summary and
/// whose keys speak for the table, each once.
pub proof fn law_zones_are_of_the_files_with_a_summary(
    m: TablesModel,
    ids: Seq<u64>,
    given: Seq<Option<ZoneMap>>,
    table: Seq<char>,
    id: u64,
    z: ZoneMap,
)
    requires
        given.len() >= ids.len(),
    ensures
        zones_of(m, ids, given, table).contains((id, z)) <==> exists|i: int|
            0 <= i < ids.len() && #[trigger] ids[i] == id && given[i] == Some(z) && in_zone(
                m.rows(id),
                table,
            ),
        zones_of(m, ids, given, table).len() <= ids.len(),
    decreases ids.len(),
{
    if ids.len() > 0 {
        let init = ids.drop_last();
        let n = ids.len() - 1;
        law_zones_are_of_the_files_with_a_summary(m, init, given, table, id, z);
        let front = zones_of(m, init, given, table);
        let all = zones_of(m, ids, given, table);
        if front.contains((id, z)) {
            let k = choose|k: int| 0 <= k < front.len() && front[k] == (id, z);
            assert(all[k] == (id, z));
            let i = choose|i: int|
                0 <= i < init.len() && #[trigger] init[i] == id && given[i] == Some(z) && in_zone(
                    m.rows(id),
                    table,
                );
            assert(ids[i] == id);
        }
        if all.contains((id, z)) {
            let k = choose|k: int| 0 <= k < all.len() && all[k] == (id, z);
            if k < front.len() {
                assert(front[k] == (id, z));
            } else {
                assert(ids[n] == id);
            }
        }
        if exists|i: int|
            0 <= i < ids.len() && #[trigger] ids[i] == id && given[i] == Some(z) && in_zone(
                m.rows(id),
                table,
            ) {
            let i = choose|i: int|
                0 <= i < ids.len() && #[trigger] ids[i] == id && given[i] == Some(z) && in_zone(
                    m.rows(id),
                    table,
                );
            if i < n {
                assert(init[i] == id);
            } else {
                assert(all[front.len() as int] == (id, z));
            }
        }
    }
}

// ── The log ───────────────────────────────────────────────────────────────

/// A log is its records' frames one behind the other; a transaction is its records
/// and then its marker; and a group is its transactions that have records, one
/// behind the other.
pub proof fn law_frames_follow_one_another(
    a: Seq<RecordModel>,
    b: Seq<RecordModel>,
    r: RecordModel,
    tx_id: u64,
    gs: Seq<(u64, Seq<RecordModel>)>,
)
    ensures
        frames(Seq::empty()) == Seq::<u8>::empty(),
        frames(seq![r]) == frame_bytes(r),
        frames(a + b) == frames(a) + frames(b),
        batch_bytes(a, tx_id) == frames(a) + frame_bytes(commit_model(tx_id)),
        group_bytes(Seq::empty()) == Seq::<u8>::empty(),
        a.len() > 0 ==> group_bytes(gs.push((tx_id, a))) == group_bytes(gs) + batch_bytes(a, tx_id),
        a.len() == 0 ==> group_bytes(gs.push((tx_id, a))) == group_bytes(gs),
    decreases b.len(),
{
    assert(frames(Seq::<RecordModel>::empty()) =~= Seq::<u8>::empty());
    assert(seq![r].drop_last() =~= Seq::<RecordModel>::empty());
    assert(frames(seq![r]) =~= frame_bytes(r));
    assert(a.push(commit_model(tx_id)).drop_last() =~= a);
    assert(group_bytes(Seq::<(u64, Seq<RecordModel>)>::empty()) =~= Seq::<u8>::empty());
    assert(gs.push((tx_id, a)).drop_last() =~= gs);
    if b.len() == 0 {
        assert(a + b =~= a);
        assert(frames(a) + frames(b) =~= frames(a));
    } else {
        law_frames_follow_one_another(a, b.drop_last(), r, tx_id, gs);
        assert((a + b).drop_last() =~= a + b.drop_last());
        assert(frames(a + b) =~= frames(a) + frames(b));
    }
}

// ── Schemas and rows ──────────────────────────────────────────────────────

/// Of the tables that a sidecar declares the last of a name counts, with every
/// column that it declares, in order.
pub proof fn law_last_declaration_counts(
    tables: Seq<(Seq<char>, Seq<FieldTextModel>)>,
    i: int,
    c: int,
)
    requires
        0 <= i < tables.len(),
        forall|j: int| i < j < tables.len() ==> (#[trigger] tables[j]).0 != tables[i].0,
    ensures
        map_of(tables).contains_key(tables[i].0),
        map_of(tables)[tables[i].0].len() == tables[i].1.len(),
        0 <= c < tables[i].1.len() ==> {
            let f = map_of(tables)[tables[i].0][c];
            &&& f.name == tables[i].1[c].name
            &&& f.nullable == tables[i].1[c].nullable
            &&& f.ty == type_named(tables[i].1[c].type_text, tables[i].1[c].zone)
        },
    decreases tables.len(),
{
    if i < tables.len() - 1 {
        let init = tables.drop_last();
        assert(tables[tables.len() - 1].0 != tables[i].0);
        assert forall|j: int| i < j < init.len() implies (#[trigger] init[j]).0 != init[i].0 by {
            assert(init[j] == tables[j]);
        }
        law_last_declaration_counts(init, i, c);
    }
}

/// A table that no entry of a sidecar names has no schema from it.
pub proof fn law_undeclared_tables_have_no_schema(
    tables: Seq<(Seq<char>, Seq<FieldTextModel>)>,
    name: Seq<char>,
)
    requires
        forall|j: int| 0 <= j < tables.len() ==> (#[trigger] tables[j]).0 != name,
    ensures
        !map_of(tables).contains_key(name),
    decreases tables.len(),
{
    if tables.len() > 0 {
        let init = tables.drop_last();
        assert(tables[tables.len() - 1].0 != name);
        assert forall|j: int| 0 <= j < init.len() implies (#[trigger] init[j]).0 != name by {
            assert(init[j] == tables[j]);
        }
        law_undeclared_tables_have_no_schema(init, name);
    }
}

/// Picking columns of a row gives each column's value, in the order asked for; a
/// column beyond the row is a bare null.
pub proof fn law_picked_columns_are_the_asked_ones(
    row: Seq<ScalarModel>,
    cols: Seq<usize>,
    i: int,
)
    requires
        0 <= i < cols.len(),
    ensures
        pick(row, cols).len() == cols.len(),
        pick(row, cols)[i] == row[cols[i] as int],
        pick_or_null(row, cols).len() == cols.len(),
        cols[i] < row.len() ==> pick_or_null(row, cols)[i] == row[cols[i] as int],
        cols[i] >= row.len() ==> pick_or_null(row, cols)[i] == bare_null(),
{
}

/// The prefix of a key is its front up to the first zero byte and with it; a key
/// without one is all prefix.
pub proof fn law_key_prefix_ends_at_the_first_zero(key: Seq<u8>)
    ensures
        key_prefix(key).len() <= key.len(),
        key_prefix(key) == key.take(key_prefix(key).len() as int),
        forall|i: int| 0 <= i < key_prefix(key).len() - 1 ==> #[trigger] key[i] != 0,
        key_prefix(key).len() < key.len() ==> key_prefix(key).len() > 0 && key_prefix(key).last()
            == 0,
    decreases key.len(),
{
    let p = key_prefix(key);
    if key.len() == 0 {
        assert(key.take(0) =~= key);
    } else if key[0] == 0 {
        assert(key.take(1) =~= p);
    } else {
        let t = key.drop_first();
        let q = key_prefix(t);
        law_key_prefix_ends_at_the_first_zero(t);
        assert(p.len() == q.len() + 1);
        assert forall|i: int| 0 <= i < p.len() implies p[i] == key[i] by {
            if i > 0 {
                assert(q[i - 1] == t.take(q.len() as int)[i - 1]);
            }
        }
        assert(p =~= key.take(p.len() as int));
        assert forall|i: int| 0 <= i < p.len() - 1 implies #[trigger] key[i] != 0 by {
            if i > 0 {
                assert(t[i - 1] != 0);
            }
        }
        if p.len() < key.len() {
            assert(p.last() == q.last());
        }
    }
}

/// The key of a row is its table's prefix and then its key parts one behind the
/// other, each behind a zero byte.
pub proof fn law_parts_of_a_key_follow_one_another(
    table: Seq<char>,
    a: Seq<Seq<u8>>,
    b: Seq<Seq<u8>>,
)
    ensures
        joined(Seq::empty()) == Seq::<u8>::empty(),
        a.len() == 1 ==> joined(a) == seq![0u8] + a[0],
        joined(a + b) == joined(a) + joined(b),
        table_key(table, a) == table_prefix_of(table) + joined(a),
        table_key(table, a + b) == table_key(table, a) + joined(b),
    decreases b.len(),
{
    assert(joined(Seq::<Seq<u8>>::empty()) =~= Seq::<u8>::empty());
    if a.len() == 1 {
        assert(a.drop_last() =~= Seq::<Seq<u8>>::empty());
        assert(joined(a) =~= seq![0u8] + a[0]);
    }
    if b.len() == 0 {
        assert(a + b =~= a);
        assert(joined(a) + joined(b) =~= joined(a));
    } else {
        law_parts_of_a_key_follow_one_another(table, a, b.drop_last());
        assert((a + b).drop_last() =~= a + b.drop_last());
        assert(joined(a + b) =~= joined(a) + joined(b));
    }
    assert(table_key(table, a + b) =~= table_key(table, a) + joined(b));
}

// ── Batches ───────────────────────────────────────────────────────────────

/// Batches are full but for the last, which is not empty.
pub proof fn law_batches_are_full_but_the_last(
    bs: Seq<ColumnBatch>,
    fields: Seq<FieldModel>,
    cells: Seq<Seq<ScalarModel>>,
    n: nat,
    size: nat,
    i: int,
)
    requires
        are_batches(bs, fields, cells, n, size),
        size > 0,
        0 <= i < bs.len(),
    ensures
        i < bs.len() - 1 ==> bs[i].num_rows == size,
        i == bs.len() - 1 ==> 0 < bs[i].num_rows <= size,
        i * size + bs[i].num_rows <= n,
        i == bs.len() - 1 ==> i * size + bs[i].num_rows == n,
{
    assert((i + 1) * size == i * size + size) by (nonlinear_arith);
    if i < bs.len() - 1 {
        assert((i + 1) * size <= (bs.len() - 1) * size) by (nonlinear_arith)
            requires
                i + 1 <= bs.len() - 1,
        ;
    } else {
        assert(i * size == (bs.len() - 1) * size);
        assert((i + 1) * size == bs.len() * size);
    }
}

/// A batch takes as many rows as it is asked to: all where no limit is given, and
/// never none.
pub proof fn law_batches_take_what_is_asked(batch_size: usize, row_count: usize)
    ensures
        batch_size == usize::MAX ==> effective_size(batch_size, row_count) == row_count,
        0 < batch_size < usize::MAX ==> effective_size(batch_size, row_count) == batch_size,
        batch_size == 0 ==> effective_size(batch_size, row_count) == 1,
{
}

/// Nulls are allowed exactly where every column that must not hold one holds none.
pub proof fn law_nulls_stay_under_nullable_columns(
    fields: Seq<FieldModel>,
    cells: Seq<Seq<ScalarModel>>,
    n: nat,
)
    ensures
        nulls_allowed(fields, cells, n) <==> forall|c: int, j: int|
            0 <= c < cells.len() && 0 <= j < n && !fields[c].nullable ==> (
            #[trigger] cells[c][j]).payload is Some,
{
    if nulls_allowed(fields, cells, n) {
        assert forall|c: int, j: int|
            0 <= c < cells.len() && 0 <= j < n && !fields[c].nullable implies (
        #[trigger] cells[c][j]).payload is Some by {
            assert(!stray_null(fields, cells, c, 0, n as int));
        }
    }
}

/// A table is scanned under its registered schema, and under the one that the caller
/// brings only where none is registered.
pub proof fn law_registered_schema_comes_first(
    m: TablesModel,
    table: Seq<char>,
    fallback: Option<Seq<FieldModel>>,
)
    ensures
        m.schemas.contains_key(table) ==> schema_for(m, table, fallback) == Some(m.schemas[table]),
        !m.schemas.contains_key(table) ==> schema_for(m, table, fallback) == fallback,
{
}

// ── Bounds of files ───────────────────────────────────────────────────────

/// The bounds of a file of rows in order enclose every key in it and are keys of
/// it, and its rows are counted.
pub proof fn law_handles_enclose_their_rows(
    rows: &[VersionedRow],
    file_id: u64,
    bytes: u64,
    h: SstHandle,
    i: int,
)
    requires
        call_ensures(handle_for, (rows, file_id, bytes), h),
        rows_sorted(row_models(rows@)),
        0 <= i < rows@.len(),
    ensures
        lex_le(bytes_view(h.min_key), bytes_view(rows@[i].key)),
        lex_le(bytes_view(rows@[i].key), bytes_view(h.max_key)),
        bytes_view(h.min_key) == bytes_view(rows@[0].key),
        bytes_view(h.max_key) == bytes_view(rows@[rows@.len() - 1].key),
        h.rows == rows@.len(),
        h.file_id == file_id,
        h.bytes == bytes,
{
    let rs = row_models(rows@);
    assert(rs[i].key == bytes_view(rows@[i].key));
    assert(rs[0].key == bytes_view(rows@[0].key));
    assert(rs[rs.len() - 1].key == bytes_view(rows@[rows@.len() - 1].key));
}

/// Of records that cannot all be applied, those before the first unfit one are: a
/// put without a value is unfit, and nothing else is.
pub proof fn law_records_are_fit_up_to_the_first_without_a_value(rs: Seq<RecordModel>, i: int)
    ensures
        applicable_prefix(rs) <= rs.len(),
        0 <= i < applicable_prefix(rs) ==> !(rs[i].op == OpType::Put && rs[i].value is None),
        applicable_prefix(rs) < rs.len() ==> rs[applicable_prefix(rs) as int].op == OpType::Put
            && rs[applicable_prefix(rs) as int].value is None,
    decreases rs.len(),
{
    if rs.len() > 0 && applicable(rs[0]) {
        let t = rs.drop_first();
        law_records_are_fit_up_to_the_first_without_a_value(t, i - 1);
        if i > 0 && i < rs.len() {
            assert(t[i - 1] == rs[i]);
        }
        let k = applicable_prefix(t) as int;
        if k < t.len() {
            assert(t[k] == rs[k + 1]);
        }
    }
}

// ── Fault points ──────────────────────────────────────────────────────────

/// A fault point that is hit is counted once while injection is on, and answers
/// where something is set for it; while it is off nothing happens. Other points
/// are not touched.
pub proof fn law_hit_is_counted_once<U: FaultSource>(
    registry: &mut FaultRegistry<U>,
    name: &str,
    r: Option<FaultAction>,
    other: Seq<char>,
)
    requires
        call_ensures(crate::fault_injector::trigger::<U>, (registry, name), r),
        old(registry).hits(name@) < u64::MAX,
    ensures
        old(registry).enabled ==> final(registry).hits(name@) == old(registry).hits(name@) + 1,
        old(registry).enabled ==> (r is Some <==> old(registry).callbacks@.contains_key(name@)),
        !old(registry).enabled ==> r is None && final(registry).hits(name@) == old(registry).hits(
            name@,
        ),
        other != name@ ==> final(registry).hits(other) == old(registry).hits(other),
        final(registry).enabled == old(registry).enabled,
{
}

// ── Numbers as text ───────────────────────────────────────────────────────

/// The number that decimal digits stand for.
pub open spec fn number_in(digits: Seq<char>) -> int
    decreases digits.len(),
{
    if digits.len() == 0 {
        0
    } else {
        number_in(digits.drop_last()) * 10 + (digits.last() as int - '0' as int)
    }
}

/// The decimal form of a number is digits that stand for it, without a needless
/// zero in front.
pub proof fn law_decimal_stands_for_its_number(n: nat)
    ensures
        decimal(n).len() > 0,
        number_in(decimal(n)) == n,
        forall|i: int|
            0 <= i < decimal(n).len() ==> '0' as int <= (#[trigger] decimal(n)[i]) as int <= '9' as int,
        n > 0 ==> decimal(n)[0] != '0',
    decreases n,
{
    let s = decimal(n);
    if n < 10 {
        assert(s.drop_last() =~= Seq::<char>::empty());
        assert(number_in(Seq::<char>::empty()) == 0);
        assert(s.last() as int == 48 + n);
    } else {
        let t = decimal(n / 10);
        law_decimal_stands_for_its_number(n / 10);
        assert(s.drop_last() =~= t);
        assert(s.last() as int == 48 + n % 10);
        assert forall|i: int| 0 <= i < s.len() implies '0' as int <= (#[trigger] s[i]) as int
            <= '9' as int by {
            if i < t.len() {
                assert(s[i] == t[i]);
            }
        }
        assert(s[0] == t[0]);
    }
}

/// The value of a lower-case hexadecimal digit.
pub open spec fn hex_value(c: char) -> int {
    if c as int <= '9' as int {
        c as int - '0' as int
    } else {
        c as int - 'a' as int + 10
    }
}

/// The hexadecimal form of a byte is a prefix and two digits that stand for it.
pub proof fn law_hex_stands_for_its_byte(v: u8)
    ensures
        hex_byte(v).len() == 4,
        hex_byte(v)[0] == '0' && hex_byte(v)[1] == 'x',
        hex_value(hex_byte(v)[2]) * 16 + hex_value(hex_byte(v)[3]) == v,
        0 <= hex_value(hex_byte(v)[2]) < 16,
        0 <= hex_value(hex_byte(v)[3]) < 16,
{
}

} // verus!
