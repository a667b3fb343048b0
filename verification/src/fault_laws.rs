//! Which faults are reported, and what the pickers and totals are told of files.

use crate::batches::{all_decode, is_first_fault, payload_fault};
use crate::column_predicate::{predicate_models, row_satisfies, ColumnPredicate};
use crate::committer::{rejected, WriteModel};
use crate::compaction::{file_models, FileMeta};
use crate::dml::{
    all_keyed, all_rows_fit, deletes_for_rows, is_row_error, puts_for_rows, row_fits,
    rows_of_batches,
};
use crate::engine::{compaction_counted, log_trimmed};
use crate::error::EngineError;
use crate::file_io::{may_read, FileIO};
use crate::pk::{is_key_fault, key_fault, KeyFault, PkCodec};
use crate::row_codec::{cells_of, is_fault, storable};
use crate::scalar::{ScalarModel, TypeModel};
use crate::schema::ColumnBatch;
use crate::sidecars::bits_for;
use crate::sst_format::SstFormat;
use crate::summaries::{
    compaction_files, is_file_model, recorded_bytes, total_sst_bytes, two_to_the_64,
};
use crate::tables::{is_listing, Tables};
use crate::version_laws::is_at;
use crate::version_set::lists_files;
use vstd::prelude::*;

verus! {

// ── Rows without a key ────────────────────────────────────────────────────

/// Key column `i` of a row is at fault: it is not among the row's columns, or its
/// value cannot be encoded.
pub open spec fn is_bad_part<K: PkCodec>(
    codec: K,
    cells: Seq<ScalarModel>,
    cols: Seq<(usize, String)>,
    i: int,
) -> bool {
    cols[i].0 >= cells.len() || codec.encoded(cells[cols[i].0 as int]) is None
}

/// What is wrong with a row's key is what is wrong with the first of its key columns
/// that is at fault.
pub proof fn law_key_fault_is_the_first<K: PkCodec>(
    codec: K,
    cells: Seq<ScalarModel>,
    cols: Seq<(usize, String)>,
    n: nat,
    i: int,
)
    requires
        0 <= i < n <= cols.len(),
        is_bad_part(codec, cells, cols, i),
        forall|j: int| 0 <= j < i ==> !#[trigger] is_bad_part(codec, cells, cols, j),
    ensures
        cols[i].0 >= cells.len() ==> key_fault(codec, cells, cols, n) == Some(KeyFault::OutOfRange),
        cols[i].0 < cells.len() ==> key_fault(codec, cells, cols, n) == Some(KeyFault::NullAt(i)),
    decreases n,
{
    if i < n - 1 {
        law_key_fault_is_the_first(codec, cells, cols, (n - 1) as nat, i);
    } else {
        lemma_no_fault(codec, cells, cols, i as nat);
    }
}

proof fn lemma_no_fault<K: PkCodec>(
    codec: K,
    cells: Seq<ScalarModel>,
    cols: Seq<(usize, String)>,
    n: nat,
)
    requires
        n <= cols.len(),
        forall|j: int| 0 <= j < n ==> !#[trigger] is_bad_part(codec, cells, cols, j),
    ensures
        key_fault(codec, cells, cols, n) is None,
    decreases n,
{
    if n > 0 {
        lemma_no_fault(codec, cells, cols, (n - 1) as nat);
        assert(!is_bad_part(codec, cells, cols, n - 1));
    }
}

/// The error says what is wrong with the key: which key column is null, or that one
/// is out of range.
pub open spec fn tells_key_fault(
    e: EngineError,
    f: KeyFault,
    table: Seq<char>,
    cols: Seq<(usize, String)>,
) -> bool {
    match f {
        KeyFault::OutOfRange => e is Corrupt,
        KeyFault::NullAt(i) => e matches EngineError::NullPrimaryKey { table: t, column: c } && t@
            == table && c@ == cols[i].1@,
    }
}

/// A delete that fails on a row without a key tells of the first row that satisfies
/// all predicates and has none.
pub proof fn law_delete_tells_of_the_first_row_without_a_key<K: PkCodec>(
    codec: &K,
    table: &str,
    batches: &[ColumnBatch],
    cols: &[(usize, String)],
    predicates: &[ColumnPredicate],
    e: EngineError,
    i: int,
)
    requires
        call_ensures(deletes_for_rows::<K>, (codec, table, batches, cols, predicates), Err(e)),
        0 <= i < rows_of_batches(batches@).len(),
        row_satisfies(rows_of_batches(batches@)[i], predicate_models(predicates@)),
        key_fault(*codec, rows_of_batches(batches@)[i], cols@, cols@.len()) is Some,
        forall|j: int|
            0 <= j < i && row_satisfies(
                #[trigger] rows_of_batches(batches@)[j],
                predicate_models(predicates@),
            ) ==> key_fault(*codec, rows_of_batches(batches@)[j], cols@, cols@.len()) is None,
    ensures
        tells_key_fault(
            e,
            key_fault(*codec, rows_of_batches(batches@)[i], cols@, cols@.len())->0,
            table@,
            cols@,
        ),
{
    let rows = rows_of_batches(batches@);
    let ps = predicate_models(predicates@);
    assert(!all_keyed(*codec, cols@, rows, ps)) by {
        assert(row_satisfies(rows[i], ps));
    }
    let k = choose|k: int|
        0 <= k < rows.len() && row_satisfies(#[trigger] rows[k], ps) && (key_fault(
            *codec,
            rows[k],
            cols@,
            cols@.len(),
        ) matches Some(f) && is_key_fault(e, f, table@, cols@)) && all_keyed(
            *codec,
            cols@,
            rows.take(k),
            ps,
        );
    if k > i {
        assert(rows.take(k)[i] == rows[i]);
    } else if k < i {
        assert(row_satisfies(rows[k], ps));
    }
}

/// An ingest that fails tells of the first row that has no key or holds a value that
/// cannot be stored.
pub proof fn law_ingest_tells_of_the_first_bad_row<K: PkCodec>(
    codec: &K,
    table: &str,
    batches: &[ColumnBatch],
    cols: &[(usize, String)],
    e: EngineError,
    i: int,
)
    requires
        call_ensures(puts_for_rows::<K>, (codec, table, batches, cols), Err(e)),
        0 <= i < rows_of_batches(batches@).len(),
        key_fault(*codec, rows_of_batches(batches@)[i], cols@, cols@.len()) is Some,
        forall|j: int|
            0 <= j < i ==> key_fault(
                *codec,
                #[trigger] rows_of_batches(batches@)[j],
                cols@,
                cols@.len(),
            ) is None,
        forall|j: int, c: int|
            0 <= j < i && 0 <= c < rows_of_batches(batches@)[j].len() ==> storable(
                #[trigger] rows_of_batches(batches@)[j][c],
            ),
    ensures
        tells_key_fault(
            e,
            key_fault(*codec, rows_of_batches(batches@)[i], cols@, cols@.len())->0,
            table@,
            cols@,
        ),
{
    let rows = rows_of_batches(batches@);
    let k = choose|k: int|
        0 <= k < rows.len() && is_row_error(
            e,
            *codec,
            table@,
            cols@,
            #[trigger] rows[k],
        ) && !row_fits(*codec, cols@, rows[k]) && all_rows_fit(
            *codec,
            cols@,
            rows.take(k),
        );
    if k > i {
        assert(rows.take(k)[i] == rows[i]);
        assert(row_fits(*codec, cols@, rows.take(k)[i]));
    } else if k < i {
        assert(key_fault(*codec, rows[k], cols@, cols@.len()) is None);
        assert(row_fits(*codec, cols@, rows[k]));
    }
}

/// A scan that fails on payloads tells of the first that cannot be decoded.
pub proof fn law_scan_tells_of_the_first_bad_payload(
    e: EngineError,
    bs: Seq<Seq<u8>>,
    types: Seq<TypeModel>,
    i: int,
)
    requires
        is_first_fault(e, bs, types),
        0 <= i < bs.len(),
        cells_of(bs[i], types) is Err,
        forall|j: int| 0 <= j < i ==> cells_of(#[trigger] bs[j], types) is Ok,
    ensures
        is_fault(e, cells_of(bs[i], types)->Err_0),
{
    let k = choose|k: int|
        0 <= k < bs.len() && (payload_fault(#[trigger] bs[k], types) matches Some(f)
            && is_fault(e, f)) && all_decode(bs.take(k), types);
    if k > i {
        assert(bs.take(k)[i] == bs[i]);
        assert(payload_fault(bs.take(k)[i], types) is None);
    } else if k < i {
        assert(cells_of(bs[k], types) is Ok);
    }
}

// ── What is told of files ─────────────────────────────────────────────────

/// A picker is told of every file on every level, once, with its level and with what
/// is recorded of it, and of nothing else.
pub proof fn law_pickers_are_told_of_every_file<F: FileIO, S: SstFormat>(
    tables: &Tables<F, S>,
    r: Vec<FileMeta>,
    level: u32,
    id: u64,
)
    requires
        call_ensures(compaction_files::<F, S>, (tables,), r),
    ensures
        is_at(tables@.version, level, id) <==> exists|i: int|
            0 <= i < r@.len() && (#[trigger] r@[i])@.level == level && r@[i]@.file_id == id,
        forall|i: int|
            0 <= i < r@.len() && tables@.version.meta.contains_key((#[trigger] r@[i])@.file_id) ==> {
                let meta = tables@.version.meta[r@[i]@.file_id];
                &&& r@[i]@.min_key == meta.min_key
                &&& r@[i]@.max_key == meta.max_key
                &&& r@[i]@.bytes == meta.bytes
                &&& r@[i]@.created_at == meta.created_at
            },
        forall|i: int, j: int|
            0 <= i < j < r@.len() ==> ((#[trigger] r@[i])@.level, r@[i]@.file_id) != (
                (#[trigger] r@[j])@.level,
                r@[j]@.file_id,
            ),
{
    let fs = file_models(r@);
    let m = tables@;
    let ps = choose|ps: Seq<(u32, u64)>| #[trigger]
        lists_files(ps, m.version.levels) && fs.len() == ps.len() && forall|i: int|
            0 <= i < fs.len() ==> is_file_model(
                #[trigger] fs[i],
                tables.format(),
                m,
                ps[i].0,
                ps[i].1,
            );
    assert(fs.len() == r@.len());
    assert forall|i: int| 0 <= i < r@.len() implies {
        let f = (#[trigger] r@[i])@;
        f.level == ps[i].0 && f.file_id == ps[i].1 && is_file_model(
            f,
            tables.format(),
            m,
            ps[i].0,
            ps[i].1,
        )
    } by {
        assert(fs[i] == r@[i]@);
    }
    if is_at(m.version, level, id) {
        assert(ps.contains((level, id)));
        let i = choose|i: int| 0 <= i < ps.len() && ps[i] == (level, id);
        assert(r@[i]@.level == level && r@[i]@.file_id == id);
    }
    if exists|i: int| 0 <= i < r@.len() && (#[trigger] r@[i])@.level == level && r@[i]@.file_id == id {
        let i = choose|i: int|
            0 <= i < r@.len() && (#[trigger] r@[i])@.level == level && r@[i]@.file_id == id;
        assert(ps[i] == (level, id));
        assert(ps.contains((level, id)));
    }
}

/// The bytes of all files are the recorded sizes of the listed files together,
/// within 64 bits.
pub proof fn law_total_is_of_all_files<F: FileIO, S: SstFormat>(
    tables: &Tables<F, S>,
    r: u64,
) -> (ids: Seq<u64>)
    requires
        call_ensures(total_sst_bytes::<F, S>, (tables,), r),
    ensures
        is_listing(ids, tables@.version),
        recorded_bytes(tables@, ids) <= u64::MAX ==> r == recorded_bytes(tables@, ids),
{
    choose|ids: Seq<u64>| #[trigger]
        is_listing(ids, tables@.version) && r == recorded_bytes(tables@, ids)
            % two_to_the_64()
}

// ── Counters and the log ──────────────────────────────────────────────────

/// A compaction is counted where it changed files, and changes nothing else of the
/// write path.
pub proof fn law_compactions_are_counted(m: WriteModel, done: bool)
    ensures
        !done ==> compaction_counted(m, done) == m,
        done && m.metrics.compaction_count < u64::MAX ==> compaction_counted(
            m,
            done,
        ).metrics.compaction_count == m.metrics.compaction_count + 1,
        compaction_counted(m, done).chains == m.chains,
        compaction_counted(m, done).log == m.log,
        compaction_counted(m, done).commit_seq == m.commit_seq,
{
}

/// A rejected transaction is counted as aborted, and as a conflict exactly where it
/// was refused for one.
pub proof fn law_conflicts_are_counted(m: WriteModel, e: EngineError)
    requires
        m.metrics.tx_aborted < u64::MAX,
        m.metrics.ssi_conflicts < u64::MAX,
    ensures
        rejected(m, e).metrics.tx_aborted == m.metrics.tx_aborted + 1,
        e is WriteConflict || e is ReadWriteConflict ==> rejected(m, e).metrics.ssi_conflicts
            == m.metrics.ssi_conflicts + 1,
        !(e is WriteConflict || e is ReadWriteConflict) ==> rejected(m, e).metrics.ssi_conflicts
            == m.metrics.ssi_conflicts,
        rejected(m, e).metrics.tx_committed == m.metrics.tx_committed,
        rejected(m, e).chains == m.chains,
        rejected(m, e).log == m.log,
{
}

/// A flush leaves the log as it was or empties it, and it empties it only above its
/// limit; below it nothing is lost.
pub proof fn law_log_is_emptied_above_its_limit<F: FileIO>(
    log: F,
    before: Seq<u8>,
    after: Seq<u8>,
    limit: u64,
)
    requires
        log_trimmed(log, before, after, limit),
    ensures
        before.len() <= limit ==> after == before,
        after == before || after.len() == 0,
        !may_read(log, false) && before.len() > limit ==> after.len() == 0,
{
}

/// A filter has, for each key, the bits that one false positive in a hundred asks
/// for, and not one bit more than that rounds up to.
pub proof fn law_filters_have_enough_bits(n: nat)
    requires
        n > 0,
    ensures
        bits_for(n) * 1_000_000_000_000_000_000 >= n * 9_585_058_377_367_439_072,
        (bits_for(n) - 1) * 1_000_000_000_000_000_000 < n * 9_585_058_377_367_439_072,
{
}

} // verus!
