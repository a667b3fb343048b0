//! What the bookkeeping of compactions comes down to: how inputs are split, which
//! job goes first, and what happens to row counts.

use crate::buf::{lemma_lex_irreflexive, ByteMap};
use crate::compact_plan::{
    add_row_counts, apply_row_delta, changed, changed_all, chunk_bytes, chunk_views, chunks_of,
    flat, law_split_partitions, size_of_file, split, split_by_size, Split,
};
use crate::compaction::{job_order, CompactionJob};
use crate::file_laws::{law_failures_are_the_unreadable, law_newest_commit_is_the_greatest};
use crate::keys::key_prefix;
use crate::memtable::{row_models, RowModel, VersionedRow};
use crate::merge::{
    count_at, count_rows_by_prefix, counts_rows, is_delta, is_merged, prefix_count_delta,
    rows_under,
};
use crate::tables::{
    are_deltas, are_tallies, counts_follow, failures, is_listing, rows_changed, tallied, tally_step,
    Tally,
};
use crate::tables_laws::rows_all;
use crate::tables_model::TablesModel;
use crate::version_set::{MetaModel, VersionSet};
use std::cmp::Ordering;
use vstd::prelude::*;

verus! {

// ── Order of jobs ─────────────────────────────────────────────────────────

/// A job goes before another where its priority number is lower; among equal
/// priorities where it moves more bytes; and then where it starts deeper. Jobs
/// that agree in all three are equal.
pub proof fn law_jobs_go_by_priority_then_size_then_depth(
    a: &CompactionJob,
    b: &CompactionJob,
    r: Ordering,
)
    requires
        call_ensures(CompactionJob::cmp, (a, b), r),
    ensures
        a.priority < b.priority ==> r is Less,
        a.priority > b.priority ==> r is Greater,
        a.priority == b.priority && a.estimated_bytes > b.estimated_bytes ==> r is Less,
        a.priority == b.priority && a.estimated_bytes < b.estimated_bytes ==> r is Greater,
        a.priority == b.priority && a.estimated_bytes == b.estimated_bytes ==> {
            &&& a.source_level > b.source_level ==> r is Less
            &&& a.source_level < b.source_level ==> r is Greater
            &&& a.source_level == b.source_level ==> r is Equal
        },
        r == job_order(*a, *b),
{
}

// ── Splitting by size ─────────────────────────────────────────────────────

/// The smaller of a sum and the largest counter.
pub open spec fn at_most_max(n: int) -> int {
    if n < u64::MAX {
        n
    } else {
        u64::MAX as int
    }
}

/// The bytes of a chunk are the recorded bytes of its files together; a file that
/// is not recorded counts for nothing.
pub proof fn law_chunk_bytes_add_up(
    a: Seq<u64>,
    b: Seq<u64>,
    id: u64,
    meta: Map<u64, MetaModel>,
)
    ensures
        chunk_bytes(Seq::empty(), meta) == 0,
        meta.contains_key(id) ==> chunk_bytes(seq![id], meta) == meta[id].bytes,
        !meta.contains_key(id) ==> chunk_bytes(seq![id], meta) == 0,
        chunk_bytes(a + b, meta) == at_most_max(chunk_bytes(a, meta) + chunk_bytes(b, meta)),
    decreases b.len(),
{
    assert(chunk_bytes(Seq::<u64>::empty(), meta) == 0);
    assert(seq![id].drop_last() =~= Seq::<u64>::empty());
    if b.len() == 0 {
        assert(a + b =~= a);
    } else {
        law_chunk_bytes_add_up(a, b.drop_last(), id, meta);
        assert((a + b).drop_last() =~= a + b.drop_last());
    }
}

/// Chunks one behind the other are the files of the first chunk, then those of the
/// next.
pub proof fn law_chunks_are_joined_in_order(a: Seq<Seq<u64>>, b: Seq<Seq<u64>>, c: Seq<u64>)
    ensures
        flat(Seq::empty()) == Seq::<u64>::empty(),
        flat(seq![c]) == c,
        flat(a + b) == flat(a) + flat(b),
    decreases b.len(),
{
    assert(flat(Seq::<Seq<u64>>::empty()) =~= Seq::<u64>::empty());
    assert(seq![c].drop_last() =~= Seq::<Seq<u64>>::empty());
    assert(flat(seq![c]) =~= c);
    if b.len() == 0 {
        assert(a + b =~= a);
        assert(flat(a) + flat(b) =~= flat(a));
    } else {
        law_chunks_are_joined_in_order(a, b.drop_last(), c);
        assert((a + b).drop_last() =~= a + b.drop_last());
        assert(flat(a) + flat(b) =~= flat(a) + flat(b.drop_last()) + b.last());
    }
}

proof fn lemma_open_chunk(inputs: Seq<u64>, meta: Map<u64, MetaModel>, max_bytes: u64)
    ensures
        ({
            let s = split(inputs, meta, max_bytes);
            &&& s.bytes == chunk_bytes(s.open, meta)
            &&& inputs.len() > 0 ==> s.open.len() > 0
            &&& inputs.len() == 0 ==> s.full.len() == 0
        }),
    decreases inputs.len(),
{
    if inputs.len() > 0 {
        let init = inputs.drop_last();
        lemma_open_chunk(init, meta, max_bytes);
        let s = split(init, meta, max_bytes);
        let id = inputs.last();
        law_chunk_bytes_add_up(Seq::empty(), Seq::empty(), id, meta);
        assert(s.open.push(id).drop_last() =~= s.open);
    }
}

/// The chunk at place `i` of a split.
spec fn chunk_at(s: Split, i: int) -> Seq<u64> {
    if i < s.full.len() {
        s.full[i]
    } else {
        s.open
    }
}

proof fn lemma_split_is_greedy(
    inputs: Seq<u64>,
    meta: Map<u64, MetaModel>,
    max_bytes: u64,
    i: int,
)
    requires
        0 <= i < split(inputs, meta, max_bytes).full.len(),
    ensures
        ({
            let s = split(inputs, meta, max_bytes);
            &&& chunk_at(s, i + 1).len() > 0
            &&& at_most_max(
                chunk_bytes(chunk_at(s, i), meta) + size_of_file(meta, chunk_at(s, i + 1)[0]),
            ) > max_bytes
        }),
    decreases inputs.len(),
{
    if inputs.len() > 0 {
        let init = inputs.drop_last();
        lemma_open_chunk(init, meta, max_bytes);
        let s = split(init, meta, max_bytes);
        let t = split(inputs, meta, max_bytes);
        if i < s.full.len() {
            lemma_split_is_greedy(init, meta, max_bytes, i);
            assert(chunk_at(t, i) == chunk_at(s, i));
            if t.full.len() > s.full.len() {
                assert(chunk_at(t, i + 1) == chunk_at(s, i + 1));
            } else {
                assert(chunk_at(t, i + 1)[0] == chunk_at(s, i + 1)[0]);
            }
        } else {
            assert(chunk_at(t, i) == s.open);
            assert(chunk_at(t, i + 1) == seq![inputs.last()]);
        }
    }
}

/// The chunks hold the inputs once each and in order, none is empty, none but a
/// single file is over the limit, and none could have taken the next file as well.
pub proof fn law_inputs_are_split_at_the_limit(
    inputs: &[u64],
    version_set: &VersionSet,
    max_bytes: u64,
    r: Vec<Vec<u64>>,
)
    requires
        call_ensures(split_by_size, (inputs, version_set, max_bytes), r),
    ensures
        flat(chunk_views(r@)) == inputs@,
        forall|i: int| 0 <= i < r@.len() ==> (#[trigger] r@[i])@.len() > 0,
        forall|i: int|
            0 <= i < r@.len() && (#[trigger] r@[i])@.len() > 1 ==> chunk_bytes(
                r@[i]@,
                version_set@.meta,
            ) <= max_bytes,
        forall|i: int|
            0 <= i < r@.len() - 1 ==> chunk_bytes(
                (#[trigger] r@[i])@.push(r@[i + 1]@[0]),
                version_set@.meta,
            ) > max_bytes,
{
    let meta = version_set@.meta;
    let s = split(inputs@, meta, max_bytes);
    let cs = chunk_views(r@);
    law_split_partitions(inputs@, meta, max_bytes);
    lemma_open_chunk(inputs@, meta, max_bytes);
    assert(cs == chunks_of(s));
    assert(cs.len() == r@.len());
    assert forall|i: int| 0 <= i < r@.len() implies (#[trigger] r@[i])@ == cs[i] by {}
    assert forall|i: int| 0 <= i < r@.len() - 1 implies chunk_bytes(
        (#[trigger] r@[i])@.push(r@[i + 1]@[0]),
        meta,
    ) > max_bytes by {
        let c = r@[i]@;
        let first = r@[i + 1]@[0];
        assert(c == cs[i] && r@[i + 1]@ == cs[i + 1]);
        lemma_split_is_greedy(inputs@, meta, max_bytes, i);
        assert(cs[i] == chunk_at(s, i) && cs[i + 1] == chunk_at(s, i + 1));
        assert(c.push(first).drop_last() =~= c);
    }
}

// ── Row counts ────────────────────────────────────────────────────────────

/// Rows are counted one by one, each for the table that its key is of.
pub proof fn law_rows_add_up(a: Seq<RowModel>, b: Seq<RowModel>, row: RowModel, prefix: Seq<u8>)
    ensures
        rows_under(Seq::empty(), prefix) == 0,
        key_prefix(row.key) == prefix ==> rows_under(seq![row], prefix) == 1,
        key_prefix(row.key) != prefix ==> rows_under(seq![row], prefix) == 0,
        rows_under(a + b, prefix) == rows_under(a, prefix) + rows_under(b, prefix),
    decreases b.len(),
{
    assert(rows_under(Seq::<RowModel>::empty(), prefix) == 0);
    assert(seq![row].drop_last() =~= Seq::<RowModel>::empty());
    if b.len() == 0 {
        assert(a + b =~= a);
    } else {
        law_rows_add_up(a, b.drop_last(), row, prefix);
        assert((a + b).drop_last() =~= a + b.drop_last());
    }
}

/// The number that a map of counts holds for a table; zero where it holds none.
pub open spec fn number_of(m: Map<Seq<u8>, usize>, prefix: Seq<u8>) -> int {
    if m.contains_key(prefix) {
        m[prefix] as int
    } else {
        0
    }
}

/// A number of rows that a counter can hold: none below zero, and no more than fit.
pub open spec fn in_counter(n: int) -> int {
    if n < 0 {
        0
    } else if n > usize::MAX {
        usize::MAX as int
    } else {
        n
    }
}

/// The counts of a list of rows are the numbers of its rows by table.
pub proof fn law_rows_are_counted_by_table(
    rows: &[VersionedRow],
    r: ByteMap<usize>,
    prefix: Seq<u8>,
)
    requires
        call_ensures(count_rows_by_prefix, (rows,), r),
    ensures
        number_of(r@, prefix) == rows_under(row_models(rows@), prefix),
{
    assert(r@.contains_key(prefix) <==> rows_under(row_models(rows@), prefix) > 0);
}

/// Where rows are added, every table's count grows by the rows of that table.
pub proof fn law_counts_grow_by_the_rows(
    counts: &mut ByteMap<usize>,
    rows: &[VersionedRow],
    prefix: Seq<u8>,
)
    requires
        call_ensures(add_row_counts, (counts, rows), ()),
    ensures
        number_of(final(counts)@, prefix) == in_counter(
            number_of(old(counts)@, prefix) + rows_under(row_models(rows@), prefix),
        ),
{
    assert(final(counts)@.contains_key(prefix) <==> old(counts)@.contains_key(prefix) || rows_under(
        row_models(rows@),
        prefix,
    ) > 0);
}

/// A change moves the count of its own table by as much, and no other.
pub proof fn law_change_moves_one_count(
    m: Map<Seq<u8>, usize>,
    table: Seq<u8>,
    change: i128,
    prefix: Seq<u8>,
)
    ensures
        number_of(changed(m, table, change), prefix) == (if prefix == table {
            in_counter(number_of(m, prefix) + change)
        } else {
            number_of(m, prefix)
        }),
{
}

proof fn lemma_changed_all(
    m: Map<Seq<u8>, usize>,
    ps: Seq<Seq<u8>>,
    changes: Seq<i128>,
    prefix: Seq<u8>,
)
    requires
        ps.no_duplicates(),
    ensures
        !ps.contains(prefix) ==> number_of(changed_all(m, ps, changes), prefix) == number_of(
            m,
            prefix,
        ),
        forall|i: int|
            0 <= i < ps.len() && #[trigger] ps[i] == prefix ==> number_of(
                changed_all(m, ps, changes),
                prefix,
            ) == in_counter(number_of(m, prefix) + changes[i]),
    decreases ps.len(),
{
    if ps.len() > 0 {
        let init = ps.drop_last();
        lemma_changed_all(m, init, changes, prefix);
        law_change_moves_one_count(
            changed_all(m, init, changes),
            ps.last(),
            changes[ps.len() - 1],
            prefix,
        );
        if ps.last() == prefix {
            if init.contains(prefix) {
                let k = choose|k: int| 0 <= k < init.len() && init[k] == prefix;
                assert(ps[k] == ps[ps.len() - 1]);
            }
            assert forall|i: int| 0 <= i < ps.len() && #[trigger] ps[i] == prefix implies number_of(
                changed_all(m, ps, changes),
                prefix,
            ) == in_counter(number_of(m, prefix) + changes[i]) by {
                assert(ps[i] == ps[ps.len() - 1]);
            }
            assert(ps.contains(ps[ps.len() - 1]));
        } else {
            if init.contains(prefix) {
                let k = choose|k: int| 0 <= k < init.len() && init[k] == prefix;
                assert(ps[k] == prefix);
            }
            assert forall|i: int| 0 <= i < ps.len() && #[trigger] ps[i] == prefix implies number_of(
                changed_all(m, ps, changes),
                prefix,
            ) == in_counter(number_of(m, prefix) + changes[i]) by {
                assert(init[i] == prefix);
            }
        }
    }
}

proof fn lemma_changes(counts: Map<Seq<u8>, usize>, delta: &ByteMap<i128>, prefix: Seq<u8>)
    requires
        delta.wf(),
    ensures
        ({
            let after = changed_all(counts, delta.key_seq(), delta.value_seq());
            number_of(after, prefix) == in_counter(
                number_of(counts, prefix) + change_of(delta@, prefix),
            )
        }),
{
    let ps = delta.key_seq();
    delta.lemma_entries();
    assert forall|i: int, j: int| 0 <= i < ps.len() && 0 <= j < ps.len() && i != j implies ps[i]
        != ps[j] by {
        lemma_lex_irreflexive(ps[i]);
        lemma_lex_irreflexive(ps[j]);
    }
    lemma_changed_all(counts, ps, delta.value_seq(), prefix);
    if delta@.contains_key(prefix) {
        assert(delta@.dom().contains(prefix));
        assert(ps.contains(prefix));
        let i = choose|i: int| 0 <= i < ps.len() && ps[i] == prefix;
        assert(delta@.contains_key(ps[i]));
    } else if ps.contains(prefix) {
        let i = choose|i: int| 0 <= i < ps.len() && ps[i] == prefix;
        assert(delta@.contains_key(ps[i]));
    }
}

/// The change that is given for a table; none where it is not named.
pub open spec fn change_of(delta: Map<Seq<u8>, i128>, prefix: Seq<u8>) -> int {
    if delta.contains_key(prefix) {
        delta[prefix] as int
    } else {
        0
    }
}

/// Applying changes moves every table's count by the change that is given for it,
/// and leaves the others.
pub proof fn law_changes_move_the_counts(
    counts: &mut ByteMap<usize>,
    delta: &ByteMap<i128>,
    prefix: Seq<u8>,
)
    requires
        call_ensures(apply_row_delta, (counts, delta), ()),
        delta.wf(),
    ensures
        number_of(final(counts)@, prefix) == in_counter(
            number_of(old(counts)@, prefix) + change_of(delta@, prefix),
        ),
{
    lemma_changes(old(counts)@, delta, prefix);
}

/// The change that a compaction records for a table is what leads from the count of
/// its inputs to the count of its outputs.
pub proof fn law_delta_leads_from_inputs_to_outputs(
    input: &ByteMap<usize>,
    output: &ByteMap<usize>,
    r: ByteMap<i128>,
    prefix: Seq<u8>,
)
    requires
        call_ensures(prefix_count_delta, (input, output), r),
    ensures
        r@.contains_key(prefix) ==> number_of(input@, prefix) + r@[prefix] == number_of(
            output@,
            prefix,
        ),
        !r@.contains_key(prefix) ==> number_of(input@, prefix) == number_of(output@, prefix),
{
    assert(count_at(input@, prefix) == number_of(input@, prefix));
}

/// A compaction that merged its inputs in one go moves the count of each table from
/// the rows that went in to the rows that came out.
pub proof fn law_compaction_recounts(
    before: TablesModel,
    after: TablesModel,
    inputs: Seq<u64>,
    watermark: u64,
    prefix: Seq<u8>,
) -> (out: Seq<RowModel>)
    requires
        counts_follow(before, after, seq![inputs], watermark),
    ensures
        is_merged(out, rows_all(before, inputs), watermark),
        number_of(after.table_rows, prefix) == in_counter(
            number_of(before.table_rows, prefix) - rows_under(rows_all(before, inputs), prefix)
                + rows_under(out, prefix),
        ),
{
    let (ds, outs) = choose|ds: Seq<ByteMap<i128>>, outs: Seq<Seq<RowModel>>| #[trigger]
        are_deltas(before, seq![inputs], ds, outs, watermark) && after.table_rows == rows_changed(
            before.table_rows,
            ds,
        );
    let all = rows_all(before, inputs);
    let out = outs[0];
    let d = ds[0];
    assert(is_merged(outs[0], rows_all(before, seq![inputs][0]), watermark));
    assert(ds.drop_last() =~= Seq::<ByteMap<i128>>::empty());
    assert(rows_changed(before.table_rows, Seq::<ByteMap<i128>>::empty()) == before.table_rows);
    lemma_changes(before.table_rows, &d, prefix);
    let (ci, co) = choose|ci: Map<Seq<u8>, usize>, co: Map<Seq<u8>, usize>| #[trigger]
        counts_rows(ci, all) && #[trigger] counts_rows(co, out) && is_delta(d@, ci, co);
    assert(ci.contains_key(prefix) <==> rows_under(all, prefix) > 0);
    assert(co.contains_key(prefix) <==> rows_under(out, prefix) > 0);
    assert(count_at(ci, prefix) == rows_under(all, prefix));
    assert(count_at(co, prefix) == rows_under(out, prefix));
    assert(d@.contains_key(prefix) <==> count_at(co, prefix) - count_at(ci, prefix) != 0);
    out
}

// ── Opening ───────────────────────────────────────────────────────────────

/// The rows of a table in those of the first `n` files that could be read.
pub open spec fn readable_rows(
    m: TablesModel,
    ids: Seq<u64>,
    readable: Seq<bool>,
    prefix: Seq<u8>,
    n: int,
) -> nat
    decreases n,
{
    if n <= 0 {
        0
    } else {
        readable_rows(m, ids, readable, prefix, n - 1) + (if readable[n - 1] {
            rows_under(m.rows(ids[n - 1]), prefix)
        } else {
            0
        })
    }
}

proof fn lemma_tally(
    ts: Seq<Tally>,
    m: TablesModel,
    ids: Seq<u64>,
    readable: Seq<bool>,
    prefix: Seq<u8>,
    n: int,
)
    requires
        are_tallies(ts, m, ids, readable),
        0 <= n <= readable.len(),
    ensures
        number_of(ts[n].tables, prefix) == in_counter(
            readable_rows(m, ids, readable, prefix, n) as int,
        ),
    decreases n,
{
    if n > 0 {
        lemma_tally(ts, m, ids, readable, prefix, n - 1);
        let u = ts[n - 1];
        assert(tally_step(ts[n - 1], ts[n - 1 + 1], m.rows(ids[n - 1]), readable[n - 1]));
        if readable[n - 1] {
            let t = ts[n];
            assert(t.tables.contains_key(prefix) <==> u.tables.contains_key(prefix) || rows_under(
                m.rows(ids[n - 1]),
                prefix,
            ) > 0);
        }
    }
}

proof fn lemma_tally_newest(
    ts: Seq<Tally>,
    m: TablesModel,
    ids: Seq<u64>,
    readable: Seq<bool>,
    n: int,
    i: int,
    j: int,
)
    requires
        are_tallies(ts, m, ids, readable),
        0 <= i < n <= readable.len(),
        readable[i],
        0 <= j < m.rows(ids[i]).len(),
    ensures
        m.rows(ids[i])[j].version.begin_ts <= ts[n].newest,
    decreases n,
{
    assert(tally_step(ts[n - 1], ts[n - 1 + 1], m.rows(ids[n - 1]), readable[n - 1]));
    if i < n - 1 {
        lemma_tally_newest(ts, m, ids, readable, n - 1, i, j);
    } else {
        law_newest_commit_is_the_greatest(m.rows(ids[i]), j);
    }
}

/// Opening counts the rows of every file that can be read, table by table, and ends
/// above every commit in them.
pub proof fn law_opening_counts_what_it_reads(
    m: TablesModel,
    max_commit: u64,
    read_failures: u64,
) -> (read: (Seq<u64>, Seq<bool>))
    requires
        tallied(m, max_commit, read_failures),
    ensures
        is_listing(read.0, m.version),
        read.1.len() == read.0.len(),
        forall|prefix: Seq<u8>|
            number_of(m.table_rows, prefix) == in_counter(
                #[trigger] readable_rows(m, read.0, read.1, prefix, read.0.len() as int) as int,
            ),
        forall|i: int, j: int|
            #![trigger m.rows(read.0[i])[j]]
            0 <= i < read.0.len() && read.1[i] && 0 <= j < m.rows(read.0[i]).len() ==> m.rows(
                read.0[i],
            )[j].version.begin_ts <= max_commit,
        read_failures == read.1.filter(|b: bool| !b).len(),
{
    let (ts, ids, readable) = choose|ts: Seq<Tally>, ids: Seq<u64>, readable: Seq<bool>| #[trigger]
        are_tallies(ts, m, ids, readable) && {
            &&& is_listing(ids, m.version)
            &&& readable.len() == ids.len()
            &&& ts.last() == (Tally {
                rows: m.row_count,
                tables: m.table_rows,
                newest: max_commit,
            })
            &&& read_failures == failures(readable, ids.len() as int)
        };
    let n = ids.len() as int;
    assert(ts.last() == ts[n]);
    assert forall|prefix: Seq<u8>| number_of(m.table_rows, prefix) == in_counter(
        #[trigger] readable_rows(m, ids, readable, prefix, n) as int,
    ) by {
        lemma_tally(ts, m, ids, readable, prefix, n);
    }
    assert forall|i: int, j: int|
        #![trigger m.rows(ids[i])[j]]
        0 <= i < ids.len() && readable[i] && 0 <= j < m.rows(ids[i]).len() implies m.rows(
        ids[i],
    )[j].version.begin_ts <= max_commit by {
        lemma_tally_newest(ts, m, ids, readable, n, i, j);
    }
    law_failures_are_the_unreadable(readable, n);
    assert(readable.take(n) =~= readable);
    (ids, readable)
}

} // verus!
