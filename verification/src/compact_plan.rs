//! Bookkeeping of compactions and flushes: which files go in, how they are
//! split, which manifest edits come out, and how row counts change.

use crate::buf::{bytes_copy, bytes_slice, bytes_view, ByteMap};
use crate::keys::key_table_prefix;
use crate::listing::{ascending, lists};
use crate::memtable::{row_models, RowModel, VersionedRow};
use crate::merge::{count_at, rows_under};
use crate::version_set::{
    edit_models, id_after, max_u64, EditModel, MetaModel, VersionEdit, VersionSet,
};
use crate::vortex_sst::SstHandle;
use vstd::prelude::*;

verus! {

// ── Inputs ────────────────────────────────────────────────────────────────

/// Collects the files of the source and target levels, each once, in order.
pub fn compaction_inputs(version_set: &VersionSet, source_level: u32, target_level: u32) -> (r: Vec<
    u64,
>)
    ensures
        lists(r@, version_set@.files(source_level).union(version_set@.files(target_level))),
{
    let a = version_set.files(source_level);
    let b = version_set.files(target_level);
    let ghost sa = version_set@.files(source_level);
    let ghost sb = version_set@.files(target_level);
    let mut out: Vec<u64> = Vec::new();
    let mut i: usize = 0;
    let mut j: usize = 0;
    while i < a.len() || j < b.len()
        invariant
            i <= a@.len(),
            j <= b@.len(),
            ascending(a@),
            ascending(b@),
            ascending(out@),
            forall|k: int| 0 <= k < out@.len() && i < a@.len() ==> #[trigger] out@[k] < a@[i as int],
            forall|k: int| 0 <= k < out@.len() && j < b@.len() ==> #[trigger] out@[k] < b@[j as int],
            forall|k: int| 0 <= k < i ==> out@.contains(#[trigger] a@[k]),
            forall|k: int| 0 <= k < j ==> out@.contains(#[trigger] b@[k]),
            forall|k: int|
                0 <= k < out@.len() ==> a@.contains(#[trigger] out@[k]) || b@.contains(out@[k]),
        decreases (a@.len() - i) + (b@.len() - j),
    {
        let ghost before = out@;
        let take_a = j == b.len() || (i < a.len() && a[i] <= b[j]);
        let take_b = i == a.len() || (j < b.len() && b[j] <= a[i]);
        let x: u64 = if take_a {
            a[i]
        } else {
            b[j]
        };
        out.push(x);
        proof {
            assert(out@[before.len() as int] == x);
            assert forall|k: int| 0 <= k < i implies out@.contains(#[trigger] a@[k]) by {
                assert(before.contains(a@[k]));
                let q = choose|q: int| 0 <= q < before.len() && before[q] == a@[k];
                assert(out@[q] == a@[k]);
            }
            assert forall|k: int| 0 <= k < j implies out@.contains(#[trigger] b@[k]) by {
                assert(before.contains(b@[k]));
                let q = choose|q: int| 0 <= q < before.len() && before[q] == b@[k];
                assert(out@[q] == b@[k]);
            }
            if take_a {
                assert(a@.contains(a@[i as int]));
            } else {
                assert(b@.contains(b@[j as int]));
            }
        }
        if take_a {
            i += 1;
        }
        if take_b {
            j += 1;
        }
    }
    proof {
        let s = sa.union(sb);
        assert forall|id: u64| #[trigger] out@.contains(id) <==> s.contains(id) by {
            if out@.contains(id) {
                let k = choose|k: int| 0 <= k < out@.len() && out@[k] == id;
                assert(a@.contains(out@[k]) || b@.contains(out@[k]));
            }
            if sa.contains(id) {
                assert(a@.contains(id));
                let k = choose|k: int| 0 <= k < a@.len() && a@[k] == id;
                assert(out@.contains(a@[k]));
            }
            if sb.contains(id) {
                assert(b@.contains(id));
                let k = choose|k: int| 0 <= k < b@.len() && b@[k] == id;
                assert(out@.contains(b@[k]));
            }
        }
    }
    out
}

// ── Splitting by size ─────────────────────────────────────────────────────

/// The recorded size of a file; zero where it is not known.
pub open spec fn size_of_file(meta: Map<u64, MetaModel>, id: u64) -> u64 {
    if meta.contains_key(id) {
        meta[id].bytes
    } else {
        0
    }
}

/// The sum, or the largest counter where it is beyond that.
pub open spec fn capped_sum(a: u64, b: u64) -> u64 {
    if a + b <= u64::MAX {
        (a + b) as u64
    } else {
        u64::MAX
    }
}

/// Full chunks, the chunk that is being filled, and the bytes in it.
#[verifier::ext_equal]
pub struct Split {
    /// Full chunks.
    pub full: Seq<Seq<u64>>,
    /// The chunk that is being filled.
    pub open: Seq<u64>,
    /// Bytes in the chunk that is being filled.
    pub bytes: u64,
}

/// How the inputs are split: a chunk is closed where the next file would lift
/// it over the limit.
pub open spec fn split(inputs: Seq<u64>, meta: Map<u64, MetaModel>, max_bytes: u64) -> Split
    decreases inputs.len(),
{
    if inputs.len() == 0 {
        Split { full: Seq::empty(), open: Seq::empty(), bytes: 0 }
    } else {
        let s = split(inputs.drop_last(), meta, max_bytes);
        let id = inputs.last();
        let size = size_of_file(meta, id);
        if capped_sum(s.bytes, size) > max_bytes && s.open.len() > 0 {
            Split { full: s.full.push(s.open), open: seq![id], bytes: size }
        } else {
            Split { full: s.full, open: s.open.push(id), bytes: capped_sum(s.bytes, size) }
        }
    }
}

/// The chunks of a split.
pub open spec fn chunks_of(s: Split) -> Seq<Seq<u64>> {
    if s.open.len() > 0 {
        s.full.push(s.open)
    } else {
        s.full
    }
}

/// What a list of chunks says.
pub open spec fn chunk_views(cs: Seq<Vec<u64>>) -> Seq<Seq<u64>> {
    cs.map_values(|c: Vec<u64>| c@)
}

/// The chunks one behind the other.
pub open spec fn flat(cs: Seq<Seq<u64>>) -> Seq<u64>
    decreases cs.len(),
{
    if cs.len() == 0 {
        Seq::empty()
    } else {
        flat(cs.drop_last()) + cs.last()
    }
}

/// The bytes of a chunk.
pub open spec fn chunk_bytes(c: Seq<u64>, meta: Map<u64, MetaModel>) -> u64
    decreases c.len(),
{
    if c.len() == 0 {
        0
    } else {
        capped_sum(chunk_bytes(c.drop_last(), meta), size_of_file(meta, c.last()))
    }
}

proof fn lemma_flat_push(cs: Seq<Seq<u64>>, c: Seq<u64>)
    ensures
        flat(cs.push(c)) == flat(cs) + c,
{
    assert(cs.push(c).drop_last() =~= cs);
}

/// A split is a partition: the chunks hold the inputs in order, none is empty,
/// and a chunk is over the limit only where it is a single file.
pub proof fn law_split_partitions(inputs: Seq<u64>, meta: Map<u64, MetaModel>, max_bytes: u64)
    ensures
        ({
            let cs = chunks_of(split(inputs, meta, max_bytes));
            &&& flat(cs) == inputs
            &&& forall|i: int| 0 <= i < cs.len() ==> (#[trigger] cs[i]).len() > 0
            &&& forall|i: int|
                0 <= i < cs.len() ==> (#[trigger] cs[i]).len() == 1 || chunk_bytes(cs[i], meta)
                    <= max_bytes
        }),
{
    lemma_split(inputs, meta, max_bytes);
    let s = split(inputs, meta, max_bytes);
    lemma_flat_push(s.full, s.open);
    if s.open.len() == 0 {
        assert(s.full + Seq::<Seq<u64>>::empty() =~= s.full);
        assert(flat(s.full) + s.open =~= flat(s.full));
    }
}

proof fn lemma_split(inputs: Seq<u64>, meta: Map<u64, MetaModel>, max_bytes: u64)
    ensures
        ({
            let s = split(inputs, meta, max_bytes);
            &&& flat(s.full) + s.open == inputs
            &&& forall|i: int| 0 <= i < s.full.len() ==> (#[trigger] s.full[i]).len() > 0
            &&& forall|i: int|
                0 <= i < s.full.len() ==> (#[trigger] s.full[i]).len() == 1 || chunk_bytes(
                    s.full[i],
                    meta,
                ) <= max_bytes
            &&& s.open.len() <= 1 || chunk_bytes(s.open, meta) <= max_bytes
            &&& s.bytes == chunk_bytes(s.open, meta)
            &&& inputs.len() > 0 ==> s.open.len() > 0
        }),
    decreases inputs.len(),
{
    if inputs.len() == 0 {
        assert(flat(Seq::empty()) + Seq::empty() =~= inputs);
    } else {
        let init = inputs.drop_last();
        lemma_split(init, meta, max_bytes);
        let s = split(init, meta, max_bytes);
        let t = split(inputs, meta, max_bytes);
        let id = inputs.last();
        assert(inputs =~= init.push(id));
        if capped_sum(s.bytes, size_of_file(meta, id)) > max_bytes && s.open.len() > 0 {
            lemma_flat_push(s.full, s.open);
            assert(flat(t.full) + t.open =~= inputs);
            assert(seq![id].drop_last() =~= Seq::<u64>::empty());
            assert(chunk_bytes(seq![id].drop_last(), meta) == 0);
        } else {
            assert(flat(t.full) + t.open =~= inputs);
            assert(s.open.push(id).drop_last() =~= s.open);
        }
    }
}

/// Splits compaction inputs into chunks whose bytes together stay within
/// `max_bytes`.
pub fn split_by_size(inputs: &[u64], version_set: &VersionSet, max_bytes: u64) -> (r: Vec<Vec<u64>>)
    ensures
        chunk_views(r@) == chunks_of(split(inputs@, version_set@.meta, max_bytes)),
{
    let ghost meta = version_set@.meta;
    let mut chunks: Vec<Vec<u64>> = Vec::new();
    let mut current: Vec<u64> = Vec::new();
    let mut current_bytes: u64 = 0;
    let mut i: usize = 0;
    assert(chunk_views(chunks@) =~= split(inputs@.take(0), meta, max_bytes).full);
    assert(current@ =~= split(inputs@.take(0), meta, max_bytes).open);
    while i < inputs.len()
        invariant
            meta == version_set@.meta,
            i <= inputs@.len(),
            ({
                let s = split(inputs@.take(i as int), meta, max_bytes);
                &&& chunk_views(chunks@) == s.full
                &&& current@ == s.open
                &&& current_bytes == s.bytes
            }),
        decreases inputs@.len() - i,
    {
        let id: u64 = inputs[i];
        let bytes: u64 = match version_set.file_metadata(id) {
            Some(m) => m.2,
            None => 0,
        };
        let ghost s = split(inputs@.take(i as int), meta, max_bytes);
        assert(inputs@.take(i + 1).drop_last() =~= inputs@.take(i as int));
        assert(bytes == size_of_file(meta, id));
        let total: u64 = current_bytes.saturating_add(bytes);
        if total > max_bytes && current.len() > 0 {
            let ghost before = chunk_views(chunks@);
            chunks.push(current);
            assert(chunk_views(chunks@) =~= before.push(s.open));
            current = Vec::new();
            current.push(id);
            assert(current@ =~= seq![id]);
            current_bytes = bytes;
        } else {
            current.push(id);
            current_bytes = total;
        }
        i += 1;
    }
    assert(inputs@.take(i as int) =~= inputs@);
    if current.len() > 0 {
        let ghost before = chunk_views(chunks@);
        let ghost last = current@;
        chunks.push(current);
        assert(chunk_views(chunks@) =~= before.push(last));
    }
    chunks
}

// ── Edits ─────────────────────────────────────────────────────────────────

/// What a handle says of its file.
pub open spec fn handle_meta(h: SstHandle, created_at: u64) -> MetaModel {
    MetaModel {
        min_key: bytes_view(h.min_key),
        max_key: bytes_view(h.max_key),
        bytes: h.bytes,
        created_at,
    }
}

/// The highest file id of the handles; zero where there is none.
pub open spec fn highest_id(hs: Seq<SstHandle>) -> u64
    decreases hs.len(),
{
    if hs.len() == 0 {
        0
    } else {
        max_u64(highest_id(hs.drop_last()), hs.last().file_id)
    }
}

/// The edits that add the files of the handles to a level.
pub open spec fn add_edits(hs: Seq<SstHandle>, stamps: Seq<u64>, level: u32) -> Seq<EditModel> {
    Seq::new(
        hs.len(),
        |i: int| EditModel::AddFile(hs[i].file_id, level, handle_meta(hs[i], stamps[i])),
    )
}

/// The edits that remove the inputs: from the source level where they are
/// there, else from the target level.
pub open spec fn delete_edits(
    inputs: Seq<u64>,
    source_files: Set<u64>,
    source_level: u32,
    target_level: u32,
) -> Seq<EditModel> {
    inputs.map_values(
        |id: u64|
            EditModel::DeleteFile(
                id,
                if source_files.contains(id) {
                    source_level
                } else {
                    target_level
                },
            ),
    )
}

/// The one batch of edits that commits a compaction.
pub open spec fn compaction_edit_models(
    inputs: Seq<u64>,
    source_files: Set<u64>,
    source_level: u32,
    target_level: u32,
    hs: Seq<SstHandle>,
    stamps: Seq<u64>,
) -> Seq<EditModel> {
    add_edits(hs, stamps, target_level) + seq![EditModel::NextFileId(id_after(highest_id(hs)))]
        + delete_edits(inputs, source_files, source_level, target_level)
}

/// Builds the batch of edits that commits a compaction: the outputs are added
/// before the inputs are retired.
pub fn compaction_edits(
    inputs: &[u64],
    version_set: &VersionSet,
    source_level: u32,
    target_level: u32,
    handles: &[SstHandle],
    stamps: &[u64],
) -> (r: Vec<VersionEdit>)
    requires
        stamps@.len() == handles@.len(),
    ensures
        edit_models(r@) == compaction_edit_models(
            inputs@,
            version_set@.files(source_level),
            source_level,
            target_level,
            handles@,
            stamps@,
        ),
{
    let ghost source_files = version_set@.files(source_level);
    let mut edits: Vec<VersionEdit> = Vec::new();
    let mut max_id: u64 = 0;
    let mut i: usize = 0;
    let ghost adds = add_edits(handles@, stamps@, target_level);
    assert(edit_models(edits@) =~= adds.take(0));
    while i < handles.len()
        invariant
            i <= handles@.len(),
            stamps@.len() == handles@.len(),
            adds == add_edits(handles@, stamps@, target_level),
            max_id == highest_id(handles@.take(i as int)),
            edit_models(edits@) == adds.take(i as int),
        decreases handles@.len() - i,
    {
        let h = &handles[i];
        let ghost before = edit_models(edits@);
        proof {
            assert(handles@.take(i + 1).drop_last() =~= handles@.take(i as int));
        }
        if h.file_id > max_id {
            max_id = h.file_id;
        }
        edits.push(
            VersionEdit::AddFile {
                file_id: h.file_id,
                level: target_level,
                min_key: h.min_key.clone(),
                max_key: h.max_key.clone(),
                bytes: h.bytes,
                created_at: stamps[i],
            },
        );
        assert(edit_models(edits@) =~= before.push(adds[i as int]));
        assert(adds.take(i + 1) =~= adds.take(i as int).push(adds[i as int]));
        i += 1;
    }
    assert(handles@.take(i as int) =~= handles@);
    assert(adds.take(i as int) =~= adds);
    let next: u64 = if max_id == u64::MAX {
        max_id
    } else {
        max_id + 1
    };
    edits.push(VersionEdit::NextFileId(next));
    let ghost head = adds + seq![EditModel::NextFileId(next)];
    assert(edit_models(edits@) =~= head);
    let source = version_set.files(source_level);
    let ghost dels = delete_edits(inputs@, source_files, source_level, target_level);
    let mut j: usize = 0;
    assert(edit_models(edits@) =~= head + dels.take(0));
    while j < inputs.len()
        invariant
            j <= inputs@.len(),
            lists(source@, source_files),
            dels == delete_edits(inputs@, source_files, source_level, target_level),
            edit_models(edits@) == head + dels.take(j as int),
        decreases inputs@.len() - j,
    {
        let id: u64 = inputs[j];
        let ghost before = edit_models(edits@);
        let level: u32 = if contains_id(&source, id) {
            source_level
        } else {
            target_level
        };
        edits.push(VersionEdit::DeleteFile { file_id: id, level });
        proof {
            assert(source@.contains(id) <==> source_files.contains(id));
            assert(edit_models(edits@) =~= before.push(dels[j as int]));
            assert(dels.take(j + 1) =~= dels.take(j as int).push(dels[j as int]));
            assert(before.push(dels[j as int]) =~= head + dels.take(j + 1));
        }
        j += 1;
    }
    assert(dels.take(j as int) =~= dels);
    edits
}

fn contains_id(ids: &Vec<u64>, id: u64) -> (r: bool)
    ensures
        r == ids@.contains(id),
{
    let mut i: usize = 0;
    while i < ids.len()
        invariant
            i <= ids@.len(),
            forall|j: int| 0 <= j < i ==> ids@[j] != id,
        decreases ids@.len() - i,
    {
        if ids[i] == id {
            assert(ids@[i as int] == id);
            return true;
        }
        i += 1;
    }
    false
}

// ── Row counts ────────────────────────────────────────────────────────────

/// The sum, or the largest count where it is beyond that.
pub open spec fn capped_count(n: int) -> usize {
    if n < 0 {
        0
    } else if n <= usize::MAX {
        n as usize
    } else {
        usize::MAX
    }
}

/// The counts after rows were added: every table's grows by its rows.
pub open spec fn is_grown(
    after: Map<Seq<u8>, usize>,
    before: Map<Seq<u8>, usize>,
    rs: Seq<RowModel>,
) -> bool {
    forall|p: Seq<u8>|
        #![trigger after.contains_key(p)]
        ({
            &&& after.contains_key(p) <==> before.contains_key(p) || rows_under(rs, p) > 0
            &&& after.contains_key(p) ==> after[p] == capped_count(
                count_at(before, p) + rows_under(rs, p),
            )
        })
}

/// Adds rows to the per-table counts.
pub fn add_row_counts(table_rows: &mut ByteMap<usize>, rows: &[VersionedRow])
    requires
        old(table_rows).wf(),
    ensures
        final(table_rows).wf(),
        is_grown(final(table_rows)@, old(table_rows)@, row_models(rows@)),
{
    let ghost rs = row_models(rows@);
    let ghost start = table_rows@;
    let mut i: usize = 0;
    assert(is_grown(start, start, rs.take(0)));
    while i < rows.len()
        invariant
            rs == row_models(rows@),
            start == old(table_rows)@,
            i <= rows@.len(),
            table_rows.wf(),
            is_grown(table_rows@, start, rs.take(i as int)),
        decreases rows@.len() - i,
    {
        let ghost here = rs.take(i as int);
        let ghost next = rs.take(i + 1);
        let ghost before = table_rows@;
        proof {
            assert(next.drop_last() =~= here);
            assert(next.last() == rows@[i as int]@);
        }
        let prefix = key_table_prefix(bytes_slice(&rows[i].key));
        let n: usize = match table_rows.get(prefix) {
            Some(n) => *n,
            None => 0,
        };
        let grown: usize = n.saturating_add(1);
        table_rows.insert(bytes_copy(prefix), grown);
        assert forall|p: Seq<u8>|
            #![trigger table_rows@.contains_key(p)]
            ({
                &&& table_rows@.contains_key(p) <==> start.contains_key(p) || rows_under(next, p)
                    > 0
                &&& table_rows@.contains_key(p) ==> table_rows@[p] == capped_count(
                    count_at(start, p) + rows_under(next, p),
                )
            }) by {
            assert(before.contains_key(p) <==> start.contains_key(p) || rows_under(here, p) > 0);
            if p == prefix@ {
                assert(n == capped_count(count_at(start, p) + rows_under(here, p)));
            }
        }
        i += 1;
    }
    assert(rs.take(i as int) =~= rs);
}

/// The counts after one change: a gain is added, a loss is subtracted from a
/// table that is counted, and a table with no rows left is forgotten.
pub open spec fn changed(m: Map<Seq<u8>, usize>, p: Seq<u8>, change: i128) -> Map<Seq<u8>, usize> {
    if change > 0 {
        m.insert(p, capped_count(count_at(m, p) + change))
    } else if !m.contains_key(p) {
        m
    } else if m[p] + change <= 0 {
        m.remove(p)
    } else {
        m.insert(p, (m[p] + change) as usize)
    }
}

/// The counts after a list of changes.
pub open spec fn changed_all(
    m: Map<Seq<u8>, usize>,
    ps: Seq<Seq<u8>>,
    changes: Seq<i128>,
) -> Map<Seq<u8>, usize>
    decreases ps.len(),
{
    if ps.len() == 0 {
        m
    } else {
        changed(changed_all(m, ps.drop_last(), changes), ps.last(), changes[ps.len() - 1])
    }
}

/// Changes the per-table counts by the deltas of a compaction.
pub fn apply_row_delta(table_rows: &mut ByteMap<usize>, delta: &ByteMap<i128>)
    requires
        old(table_rows).wf(),
        delta.wf(),
    ensures
        final(table_rows).wf(),
        final(table_rows)@ == changed_all(old(table_rows)@, delta.key_seq(), delta.value_seq()),
{
    let ghost ps = delta.key_seq();
    let ghost cs = delta.value_seq();
    let ghost start = table_rows@;
    let mut i: usize = 0;
    while i < delta.len()
        invariant
            start == old(table_rows)@,
            delta.wf(),
            ps == delta.key_seq(),
            cs == delta.value_seq(),
            i <= ps.len(),
            table_rows.wf(),
            table_rows@ == changed_all(start, ps.take(i as int), cs),
        decreases ps.len() - i,
    {
        let key = delta.key_at(i);
        let change: i128 = *delta.value_at(i);
        let ghost p = bytes_view(*key);
        let ghost before = table_rows@;
        proof {
            assert(ps.take(i + 1).drop_last() =~= ps.take(i as int));
            assert(ps.take(i + 1).last() == p);
        }
        let known: Option<usize> = match table_rows.get(bytes_slice(key)) {
            Some(n) => Some(*n),
            None => None,
        };
        if change > 0 {
            let n: usize = match known {
                Some(n) => n,
                None => 0,
            };
            let room: i128 = usize::MAX as i128 - n as i128;
            let grown: usize = if change > room {
                usize::MAX
            } else {
                (n as i128 + change) as usize
            };
            table_rows.insert(key.clone(), grown);
        } else if let Some(n) = known {
            if change <= -(n as i128) {
                let _gone = table_rows.remove(bytes_slice(key));
            } else {
                table_rows.insert(key.clone(), (n as i128 + change) as usize);
            }
        }
        assert(table_rows@ =~= changed(before, p, change));
        i += 1;
    }
    assert(ps.take(i as int) =~= ps);
}

} // verus!
