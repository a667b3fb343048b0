//! What is known of the files without reading their rows: sizes, key ranges
//! and column statistics.

use crate::batches::schema_view;
use crate::buf::{bytes_empty, bytes_slice, has_prefix, key_less, lex_lt, starts_with};
use crate::column_stats::scalar_map;
use crate::compaction::{file_models, FileMeta, FileModel};
use crate::file_io::FileIO;
use crate::keys::{table_prefix, table_prefix_of};
use crate::memtable::RowModel;
use crate::name_map::NameMap;
use crate::paths::sst_path;
use crate::scalar::ScalarValue;
use crate::schema::{FieldModel, Schema};
use crate::sst_format::{answered, may_summarize, SstFormat, ZoneMap};
use crate::tables::{is_listing, Tables};
use crate::tables_model::TablesModel;
use crate::version_set::lists_files;
use crate::vortex_sst::{first_key, last_key};
use vstd::prelude::*;

verus! {

/// The sizes that are recorded of the files, in all.
pub open spec fn recorded_bytes(m: TablesModel, ids: Seq<u64>) -> nat
    decreases ids.len(),
{
    if ids.len() == 0 {
        0
    } else {
        recorded_bytes(m, ids.drop_last()) + if m.version.meta.contains_key(ids.last()) {
            m.version.meta[ids.last()].bytes as nat
        } else {
            0
        }
    }
}

/// One more than the largest 64-bit number.
pub open spec fn two_to_the_64() -> nat {
    0x1_0000_0000_0000_0000
}

/// `r` is the size of all files, wrapped around.
pub open spec fn is_byte_total(r: u64, m: TablesModel) -> bool {
    exists|ids: Seq<u64>| #[trigger]
        is_listing(ids, m.version) && r == recorded_bytes(m, ids) % two_to_the_64()
}

/// Returns the bytes on disk of all files, as recorded in the manifest. The
/// sum wraps around.
pub fn total_sst_bytes<F: FileIO, S: SstFormat>(tables: &Tables<F, S>) -> (r: u64)
    requires
        tables.wf(),
    ensures
        is_byte_total(r, tables@),
{
    let ids = tables.file_ids();
    let version_set = tables.version_set();
    let ghost m = tables@;
    let mut total: u64 = 0;
    let mut i: usize = 0;
    assert(ids@.take(0) =~= Seq::<u64>::empty());
    while i < ids.len()
        invariant
            i <= ids@.len(),
            m == tables@,
            version_set@ == m.version,
            total == recorded_bytes(m, ids@.take(i as int)) % two_to_the_64(),
        decreases ids@.len() - i,
    {
        proof {
            assert(ids@.take(i + 1).drop_last() =~= ids@.take(i as int));
            assert(ids@.take(i + 1).last() == ids@[i as int]);
        }
        match version_set.file_metadata(ids[i]) {
            Some(meta) => {
                proof {
                    lemma_wrapping_sum(recorded_bytes(m, ids@.take(i as int)), total, meta.2);
                }
                total = total.wrapping_add(meta.2);
            },
            None => {},
        }
        i += 1;
    }
    assert(ids@.take(i as int) =~= ids@);
    total
}

proof fn lemma_wrapping_sum(a: nat, x: u64, y: u64)
    requires
        x == a % two_to_the_64(),
    ensures
        (if x + y >= two_to_the_64() {
            x + y - two_to_the_64()
        } else {
            x + y
        }) == (a + y as nat) % two_to_the_64(),
{
    vstd::arithmetic::div_mod::lemma_fundamental_div_mod(a as int, two_to_the_64() as int);
    let q = a as int / two_to_the_64() as int;
    let n = two_to_the_64() as int;
    if x + y >= n {
        vstd::arithmetic::div_mod::lemma_fundamental_div_mod_converse(
            a + y,
            n,
            q + 1,
            x + y - n,
        );
    } else {
        vstd::arithmetic::div_mod::lemma_fundamental_div_mod_converse(a + y, n, q, x + y as int);
    }
}

/// What a picker is told of a file: what the manifest records, or else the
/// file's own bounds and the size that its summary gives, which are empty
/// where it cannot be read.
pub open spec fn is_file_model<S: SstFormat>(
    f: FileModel,
    format: S,
    m: TablesModel,
    level: u32,
    id: u64,
) -> bool {
    &&& f.level == level
    &&& f.file_id == id
    &&& if m.version.meta.contains_key(id) {
        let meta = m.version.meta[id];
        f.min_key == meta.min_key && f.max_key == meta.max_key && f.bytes == meta.bytes
            && f.created_at == meta.created_at
    } else {
        &&& f.created_at == 0
        &&& exists|given: Option<ZoneMap>| #[trigger]
            may_summarize(format, m.path(id), None, given) && match given {
                Some(z) => f.min_key == first_key(m.rows(id)) && f.max_key == last_key(m.rows(id))
                    && f.bytes == z.total_bytes,
                None => f.min_key.len() == 0 && f.max_key.len() == 0 && f.bytes == 0,
            }
    }
}

/// What a picker is told of all files, by level and then by id.
pub open spec fn are_file_models<F: FileIO, S: SstFormat>(
    fs: Seq<FileModel>,
    tables: Tables<F, S>,
) -> bool {
    exists|ps: Seq<(u32, u64)>| #[trigger]
        lists_files(ps, tables@.version.levels) && fs.len() == ps.len() && forall|i: int|
            0 <= i < fs.len() ==> is_file_model(
                #[trigger] fs[i],
                tables.format(),
                tables@,
                ps[i].0,
                ps[i].1,
            )
}

/// Collects what a compaction picker is told of the files.
pub fn compaction_files<F: FileIO, S: SstFormat>(tables: &Tables<F, S>) -> (r: Vec<FileMeta>)
    requires
        tables.wf(),
    ensures
        are_file_models(file_models(r@), *tables),
{
    let version_set = tables.version_set();
    let pairs = version_set.level_files();
    let ghost m = tables@;
    let mut out: Vec<FileMeta> = Vec::new();
    let mut i: usize = 0;
    while i < pairs.len()
        invariant
            i <= pairs@.len(),
            tables.wf(),
            m == tables@,
            version_set@ == m.version,
            out@.len() == i,
            forall|j: int|
                0 <= j < i ==> is_file_model(
                    (#[trigger] out@[j])@,
                    tables.format(),
                    m,
                    pairs@[j].0,
                    pairs@[j].1,
                ),
        decreases pairs@.len() - i,
    {
        let (level, file_id) = pairs[i];
        let file = match version_set.file_metadata(file_id) {
            Some(meta) => FileMeta {
                file_id,
                level,
                bytes: meta.2,
                min_key: meta.0.clone(),
                max_key: meta.1.clone(),
                created_at: meta.3,
            },
            None => {
                let path = sst_path(tables.dir_text(), file_id);
                let summary = tables.sst_format().zone_map(path.as_str(), None);
                assert(may_summarize(tables.format(), m.path(file_id), None, answered(summary)));
                match summary {
                    Ok(zone) => FileMeta {
                        file_id,
                        level,
                        bytes: zone.total_bytes,
                        min_key: zone.min_key,
                        max_key: zone.max_key,
                        created_at: 0,
                    },
                    Err(_) => FileMeta {
                        file_id,
                        level,
                        bytes: 0,
                        min_key: bytes_empty(),
                        max_key: bytes_empty(),
                        created_at: 0,
                    },
                }
            },
        };
        out.push(file);
        i += 1;
    }
    proof {
        assert forall|j: int| 0 <= j < file_models(out@).len() implies is_file_model(
            #[trigger] file_models(out@)[j],
            tables.format(),
            m,
            pairs@[j].0,
            pairs@[j].1,
        ) by {
            assert(is_file_model(out@[j]@, tables.format(), m, pairs@[j].0, pairs@[j].1));
        }
    }
    out
}

/// The key range of a file speaks for the table: it is empty, or it begins
/// with a key of the table.
pub open spec fn in_zone(rs: Seq<RowModel>, table: Seq<char>) -> bool {
    let prefix = table_prefix_of(table);
    first_key(rs).len() == 0 || (has_prefix(first_key(rs), prefix) && !lex_lt(
        last_key(rs),
        prefix,
    ))
}

/// The files whose key range speaks for the table and of which there is a
/// summary, each with its summary.
pub open spec fn zones_of(
    m: TablesModel,
    ids: Seq<u64>,
    given: Seq<Option<ZoneMap>>,
    table: Seq<char>,
) -> Seq<(u64, ZoneMap)>
    decreases ids.len(),
{
    if ids.len() == 0 {
        Seq::empty()
    } else {
        let front = zones_of(m, ids.drop_last(), given, table);
        match given[ids.len() - 1] {
            Some(z) => if in_zone(m.rows(ids.last()), table) {
                front.push((ids.last(), z))
            } else {
                front
            },
            None => front,
        }
    }
}

/// The zone map of a file of the table: the summary that the format gave,
/// with the column statistics that are cached of the file in place of its own.
pub open spec fn is_zone(
    z: ZoneMap,
    given: ZoneMap,
    m: TablesModel,
    id: u64,
    table: Seq<char>,
) -> bool {
    &&& z.summarizes(m.rows(id))
    &&& z.total_bytes == given.total_bytes
    &&& if m.stats.contains_key(id) && m.stats[id].contains_key(table) {
        let s = m.stats[id][table];
        &&& scalar_map(z.column_min@) == s.min
        &&& scalar_map(z.column_max@) == s.max
        &&& z.column_null_count@ == s.nulls
    } else {
        z == given
    }
}

/// The zone maps of a table, file by file.
pub open spec fn are_zones(
    out: Seq<(u64, ZoneMap)>,
    m: TablesModel,
    ids: Seq<u64>,
    given: Seq<Option<ZoneMap>>,
    table: Seq<char>,
) -> bool {
    let zs = zones_of(m, ids, given, table);
    &&& out.len() == zs.len()
    &&& forall|j: int|
        0 <= j < out.len() ==> (#[trigger] out[j]).0 == zs[j].0 && is_zone(
            out[j].1,
            zs[j].1,
            m,
            zs[j].0,
            table,
        )
}

/// The zone maps of a table over all files; a file that cannot be read has
/// none.
pub open spec fn are_table_zones<F: FileIO, S: SstFormat>(
    out: Seq<(u64, ZoneMap)>,
    tables: Tables<F, S>,
    table: Seq<char>,
    schema: Option<Seq<FieldModel>>,
) -> bool {
    exists|ids: Seq<u64>, given: Seq<Option<ZoneMap>>|
        is_listing(ids, tables@.version) && given.len() == ids.len() && #[trigger] are_zones(
            out,
            tables@,
            ids,
            given,
            table,
        ) && forall|i: int|
            0 <= i < ids.len() ==> may_summarize(
                tables.format(),
                tables@.path(#[trigger] ids[i]),
                schema,
                given[i],
            )
}

/// Returns the zone maps of the files whose key range speaks for the table.
pub fn table_zone_maps<F: FileIO, S: SstFormat>(
    tables: &Tables<F, S>,
    table: &str,
    row_schema: Option<&Schema>,
) -> (r: Vec<(u64, ZoneMap)>)
    requires
        tables.wf(),
    ensures
        are_table_zones(r@, *tables, table@, schema_view(row_schema)),
{
    let prefix = table_prefix(table);
    let ids = tables.file_ids();
    let ghost m = tables@;
    let ghost mut given: Seq<Option<ZoneMap>> = Seq::empty();
    let mut out: Vec<(u64, ZoneMap)> = Vec::new();
    let mut i: usize = 0;
    assert(ids@.take(0) =~= Seq::<u64>::empty());
    while i < ids.len()
        invariant
            i <= ids@.len(),
            tables.wf(),
            m == tables@,
            prefix@ == table_prefix_of(table@),
            given.len() == i,
            are_zones(out@, m, ids@.take(i as int), given, table@),
            forall|j: int|
                0 <= j < i ==> may_summarize(
                    tables.format(),
                    m.path(#[trigger] ids@[j]),
                    schema_view(row_schema),
                    given[j],
                ),
        decreases ids@.len() - i,
    {
        let file_id: u64 = ids[i];
        let path = sst_path(tables.dir_text(), file_id);
        let ghost before = out@;
        let ghost earlier = given;
        let zone = tables.sst_format().zone_map(path.as_str(), row_schema);
        proof {
            assert(may_summarize(
                tables.format(),
                m.path(file_id),
                schema_view(row_schema),
                answered(zone),
            ));
            given = given.push(answered(zone));
            assert(ids@.take(i + 1).drop_last() =~= ids@.take(i as int));
            assert(ids@.take(i + 1).last() == file_id);
            lemma_zones_same(m, ids@.take(i as int), earlier, given, table@);
        }
        match zone {
            Ok(found) => {
                let mut zone = found;
                let min = bytes_slice(&zone.min_key);
                let max = bytes_slice(&zone.max_key);
                let skipped = min.len() > 0 && (key_less(max, prefix.as_slice()) || !starts_with(
                    min,
                    prefix.as_slice(),
                ));
                if !skipped {
                    match tables.column_stats(file_id, table) {
                        Some(stats) => {
                            zone.column_min = copy_scalars(&stats.min);
                            zone.column_max = copy_scalars(&stats.max);
                            zone.column_null_count = copy_counts(&stats.null_count);
                        },
                        None => {},
                    }
                    out.push((file_id, zone));
                    proof {
                        let zs = zones_of(m, ids@.take(i + 1), given, table@);
                        assert forall|j: int| 0 <= j < out@.len() implies (#[trigger] out@[j]).0
                            == zs[j].0 && is_zone(out@[j].1, zs[j].1, m, zs[j].0, table@) by {
                            if j < before.len() {
                                assert(out@[j] == before[j]);
                            }
                        }
                    }
                }
            },
            Err(_) => {},
        }
        i += 1;
    }
    assert(ids@.take(i as int) =~= ids@);
    assert(are_zones(out@, m, ids@, given, table@));
    out
}

proof fn lemma_zones_same(
    m: TablesModel,
    ids: Seq<u64>,
    a: Seq<Option<ZoneMap>>,
    b: Seq<Option<ZoneMap>>,
    table: Seq<char>,
)
    requires
        forall|i: int| 0 <= i < ids.len() ==> a[i] == b[i],
    ensures
        zones_of(m, ids, a, table) == zones_of(m, ids, b, table),
    decreases ids.len(),
{
    if ids.len() > 0 {
        lemma_zones_same(m, ids.drop_last(), a, b, table);
    }
}

/// Copies a map of scalars.
fn copy_scalars(src: &NameMap<ScalarValue>) -> (r: NameMap<ScalarValue>)
    requires
        src.wf(),
    ensures
        r.wf(),
        scalar_map(r@) == scalar_map(src@),
{
    let mut out: NameMap<ScalarValue> = NameMap::new();
    let mut i: usize = 0;
    let ghost names = src.name_seq();
    let ghost values = src.value_seq();
    while i < src.len()
        invariant
            i <= names.len(),
            src.wf(),
            names == src.name_seq(),
            values == src.value_seq(),
            out.wf(),
            forall|n: Seq<char>| #[trigger]
                out@.contains_key(n) <==> exists|j: int| 0 <= j < i && names[j] == n,
            forall|j: int| 0 <= j < i ==> out@[#[trigger] names[j]]@ == values[j]@,
        decreases names.len() - i,
    {
        out.insert(src.name_at(i).as_str(), src.value_at(i).clone());
        i += 1;
    }
    proof {
        assert forall|j: int| 0 <= j < names.len() implies src@.contains_key(#[trigger] names[j])
            && src@[names[j]] == values[j] by {
            src.lemma_entry(j);
        }
        assert forall|n: Seq<char>| src@.contains_key(n) implies out@.contains_key(n) by {
            assert(names.contains(n));
        }
        assert(scalar_map(out@) =~= scalar_map(src@));
    }
    out
}

/// Copies a map of counts.
fn copy_counts(src: &NameMap<usize>) -> (r: NameMap<usize>)
    requires
        src.wf(),
    ensures
        r.wf(),
        r@ == src@,
{
    let mut out: NameMap<usize> = NameMap::new();
    let mut i: usize = 0;
    let ghost names = src.name_seq();
    let ghost values = src.value_seq();
    while i < src.len()
        invariant
            i <= names.len(),
            src.wf(),
            names == src.name_seq(),
            values == src.value_seq(),
            out.wf(),
            forall|n: Seq<char>| #[trigger]
                out@.contains_key(n) <==> exists|j: int| 0 <= j < i && names[j] == n,
            forall|j: int| 0 <= j < i ==> out@[#[trigger] names[j]] == values[j],
        decreases names.len() - i,
    {
        out.insert(src.name_at(i).as_str(), *src.value_at(i));
        i += 1;
    }
    proof {
        assert forall|j: int| 0 <= j < names.len() implies src@.contains_key(#[trigger] names[j])
            && src@[names[j]] == values[j] by {
            src.lemma_entry(j);
        }
        assert forall|n: Seq<char>| src@.contains_key(n) implies out@.contains_key(n) by {
            assert(names.contains(n));
        }
        assert(out@ =~= src@);
    }
    out
}

} // verus!
