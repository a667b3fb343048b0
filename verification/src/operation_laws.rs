//! What the operations of an engine mean for what is read of it.

use crate::buf::{
    has_prefix, lemma_lex_irreflexive, lex_lt, lists_keys, opt_bytes_view, sorted_keys,
};
use crate::chain_store::{chain_of, chains_read, Chains};
use crate::clock::Clock;
use crate::column_predicate::{
    apply_row_predicates, predicate_models, row_stays, ColumnPredicate, PredicateModel,
};
use crate::commit_laws::{law_last_write_is_the_last, lemma_no_write};
use crate::committer::{committed, in_step, law_commit_is_read_back};
use crate::compact_plan::{chunks_of, handle_meta, split};
use crate::compaction::CompactionPicker;
use crate::dml::rows_of_batches;
use crate::dml_laws::{lemma_puts, puts_last_rows};
use crate::engine::{compact_outcome, drained, sub_compact_outcome, Engine, EngineModel, ScanStats};
use crate::engine_laws::{healthy, law_drop_hides_table, law_write_keeps_other_reads};
use crate::error::Result;
use crate::file_io::FileIO;
use crate::hook::EngineHook;
use crate::keys::{key_prefix, law_key_names_its_table, table_prefix_of, zero_free};
use crate::listing::lists;
use crate::memtable::{keys_with, row_models, table_rows, RowModel, VersionedRow};
use crate::memtable_laws::lemma_listing_exists;
use crate::merge::rows_under;
use crate::mutation::{mutation_models, Mutation};
use crate::partition_laws::{is_match, law_scans_keep_the_matching_rows};
use crate::pins::is_watermark;
use crate::pk::{are_key_columns, PkCodec};
use crate::plan_laws::{in_counter, number_of};
use crate::scalar::TypeModel;
use crate::scan_laws::law_chain_read_is_the_newest_in_time;
use crate::schema::{types_of, ColumnBatch, Schema};
use crate::sst_format::SstFormat;
use crate::tables::{
    flush_done, law_split_covers, lemma_one_chunk_covers, level_files, Tables,
    SUB_COMPACTION_MAX_BYTES,
};
use crate::tables_laws::{
    is_compacted, is_input, is_output, law_compaction_keeps_reads, law_flush_keeps_reads,
    lemma_flush_version, with_outputs,
};
use crate::tables_model::{latest_in, law_newest_is_latest, none_in, value_of, TablesModel};
use crate::version::{VersionModel, OPEN_ENDED_TS};
use crate::version_laws::is_at;
use crate::vortex_sst::SstHandle;
use crate::wal::{mutation_records, OpType};
use bytes::Bytes;
use vstd::prelude::*;
use vstd::utf8::encode_utf8;

verus! {

/// The mutation at place `i` is the last of its key.
pub open spec fn is_last_mutation(ms: Seq<Mutation>, i: int, key: Seq<u8>) -> bool {
    &&& 0 <= i < ms.len()
    &&& ms[i]@.key == key
    &&& forall|j: int| i < j < ms.len() ==> (#[trigger] ms[j])@.key != key
}

proof fn lemma_records(tx_id: u64, mutations: Seq<Mutation>)
    ensures
        ({
            let rs = mutation_records(tx_id, mutation_models(mutations));
            &&& rs.len() == mutations.len()
            &&& forall|j: int|
                0 <= j < rs.len() ==> {
                    &&& (#[trigger] rs[j]).key == mutations[j]@.key
                    &&& rs[j].value == mutations[j]@.value
                    &&& rs[j].op == (if mutations[j]@.value is Some {
                        OpType::Put
                    } else {
                        OpType::Delete
                    })
                }
        }),
{
    let ms = mutation_models(mutations);
    let rs = mutation_records(tx_id, ms);
    assert forall|j: int| 0 <= j < rs.len() implies {
        &&& (#[trigger] rs[j]).key == mutations[j]@.key
        &&& rs[j].value == mutations[j]@.value
        &&& rs[j].op == (if mutations[j]@.value is Some {
            OpType::Put
        } else {
            OpType::Delete
        })
    } by {
        assert(ms[j] == mutations[j]@);
    }
}

/// What was written is what is got: a read at a write's commit or later returns what
/// the write's last mutation of the key says, and nothing where that deletes the
/// key.
pub proof fn law_got_is_what_was_written<F: FileIO, S: SstFormat, H: EngineHook, P: CompactionPicker, C: Clock>(
    e: &mut Engine<F, S, H, P, C>,
    g: &mut Engine<F, S, H, P, C>,
    tx_id: u64,
    mutations: &[Mutation],
    ts: u64,
    i: int,
    key: &[u8],
    at: u64,
    found: Option<Bytes>,
)
    requires
        call_ensures(Engine::<F, S, H, P, C>::write_with_tx, (e, tx_id, mutations), Ok(ts)),
        call_ensures(Engine::<F, S, H, P, C>::get, (g, key, at), Ok(found)),
        in_step(old(e)@.write),
        old(e)@.write.commit_seq < u64::MAX,
        ts <= at < OPEN_ENDED_TS,
        !old(e)@.tables.is_dropped(key@),
        is_last_mutation(mutations@, i, key@),
    ensures
        *old(g) == *final(e) ==> opt_bytes_view(found) == mutations@[i]@.value,
{
    let ms = mutation_models(mutations@);
    let rs = mutation_records(tx_id, ms);
    lemma_records(tx_id, mutations@);
    assert(rs[i].key == key@);
    assert forall|j: int| i < j < rs.len() implies (#[trigger] rs[j]).key != key@ by {
        assert(mutations@[j]@.key != key@);
    }
    law_last_write_is_the_last(rs, key@, i);
    law_commit_is_read_back(old(e)@.write, tx_id, ms, key@, at);
    assert(final(e)@.write.chains == committed(old(e)@.write, tx_id, ms).chains);
}

/// The memtable or a file holds the version of the key.
pub open spec fn holds_version(m: EngineModel, key: Seq<u8>, v: VersionModel) -> bool {
    ||| m.write.chains.contains_key(key) && m.write.chains[key].contains(v)
    ||| exists|id: u64, j: int|
        #![trigger m.tables.live(id), m.tables.rows(id)[j]]
        m.tables.live(id) && 0 <= j < m.tables.rows(id).len() && m.tables.rows(id)[j].key == key
            && m.tables.rows(id)[j].version == v
}

/// The version is the newest of its key that does not begin after the snapshot.
pub open spec fn is_newest_by(m: EngineModel, key: Seq<u8>, ts: u64, v: VersionModel) -> bool {
    &&& holds_version(m, key, v)
    &&& v.begin_ts <= ts
    &&& forall|w: VersionModel| #[trigger]
        holds_version(m, key, w) && w.begin_ts <= ts ==> w.begin_ts <= v.begin_ts
}

proof fn lemma_newest_of_files(m: EngineModel, key: Seq<u8>, ts: u64, o: Option<VersionModel>)
    requires
        healthy(m),
        ts < OPEN_ENDED_TS,
        chains_read(m.write.chains, key, ts) is None,
        m.tables.newest(key, ts, o),
    ensures
        o matches Some(v) ==> is_newest_by(m, key, ts, v),
        o is None ==> forall|w: VersionModel| #[trigger]
            holds_version(m, key, w) ==> w.begin_ts > ts,
{
    law_newest_is_latest(m.tables, key, ts, o);
    let chain = chain_of(m.write.chains, key);
    if m.write.chains.contains_key(key) {
        law_chain_read_is_the_newest_in_time(chain, ts);
    }
    assert forall|w: VersionModel| #[trigger] holds_version(m, key, w) && w.begin_ts
        <= ts implies o is Some && w.begin_ts <= o->0.begin_ts by {
        if m.write.chains.contains_key(key) && m.write.chains[key].contains(w) {
            let i = choose|i: int| 0 <= i < chain.len() && chain[i] == w;
            assert(chain[i].begin_ts > ts);
        } else {
            let (id, j) = choose|id: u64, j: int|
                #![trigger m.tables.live(id), m.tables.rows(id)[j]]
                m.tables.live(id) && 0 <= j < m.tables.rows(id).len() && m.tables.rows(id)[j].key
                    == key && m.tables.rows(id)[j].version == w;
            if o is None {
                assert(none_in(m.tables.rows(id), key, ts));
            }
        }
    }
    if let Some(v) = o {
        let id = choose|id: u64| #[trigger]
            m.tables.live(id) && latest_in(m.tables.rows(id), key, ts, v);
        let j = choose|j: int|
            0 <= j < m.tables.rows(id).len() && (#[trigger] m.tables.rows(id)[j]).key == key
                && m.tables.rows(id)[j].version == v;
        assert(m.tables.live(id) && m.tables.rows(id)[j].key == key);
    }
}

proof fn lemma_newest_of_memtable(m: EngineModel, key: Seq<u8>, ts: u64, v: VersionModel)
    requires
        healthy(m),
        ts < OPEN_ENDED_TS,
        chains_read(m.write.chains, key, ts) == Some(v),
    ensures
        is_newest_by(m, key, ts, v),
{
    let chain = chain_of(m.write.chains, key);
    if !m.write.chains.contains_key(key) {
        assert(chain.len() == 0);
        assert(false);
    }
    law_chain_read_is_the_newest_in_time(chain, ts);
    assert(chain.contains(v));
    let i = choose|i: int| 0 <= i < chain.len() && chain[i] == v;
    assert forall|w: VersionModel| #[trigger] holds_version(m, key, w) && w.begin_ts
        <= ts implies w.begin_ts <= v.begin_ts by {
        if m.write.chains[key].contains(w) {
            let k = choose|k: int| 0 <= k < chain.len() && chain[k] == w;
            assert(chain[k].begin_ts <= v.begin_ts);
        } else {
            let (id, j) = choose|id: u64, j: int|
                #![trigger m.tables.live(id), m.tables.rows(id)[j]]
                m.tables.live(id) && 0 <= j < m.tables.rows(id).len() && m.tables.rows(id)[j].key
                    == key && m.tables.rows(id)[j].version == w;
            assert(m.tables.rows(id)[j].version.begin_ts < m.write.chains[key][i].begin_ts);
        }
    }
}

/// A read returns the value of the newest version that begins by its time, wherever
/// that is held, and nothing exactly where there is none or it is a tombstone.
pub proof fn law_read_returns_the_newest<F: FileIO, S: SstFormat, H: EngineHook, P: CompactionPicker, C: Clock>(
    g: &mut Engine<F, S, H, P, C>,
    key: &[u8],
    ts: u64,
    found: Option<Bytes>,
)
    requires
        call_ensures(Engine::<F, S, H, P, C>::get, (g, key, ts), Ok(found)),
        old(g).sound(),
        healthy(old(g)@),
        !old(g)@.tables.is_dropped(key@),
        ts < OPEN_ENDED_TS,
    ensures
        found is Some ==> exists|w: VersionModel| #[trigger]
            is_newest_by(old(g)@, key@, ts, w) && w.value == opt_bytes_view(found),
        found is None ==> (exists|w: VersionModel| #[trigger]
            is_newest_by(old(g)@, key@, ts, w) && w.value is None) || forall|w: VersionModel|
            #[trigger] holds_version(old(g)@, key@, w) ==> w.begin_ts > ts,
{
    let m = old(g)@;
    assert(m.tables.reads(m.write.chains, key@, ts, opt_bytes_view(found)));
    match chains_read(m.write.chains, key@, ts) {
        Some(w) => {
            lemma_newest_of_memtable(m, key@, ts, w);
            assert(is_newest_by(m, key@, ts, w) && w.value == opt_bytes_view(found));
        },
        None => {
            let o = choose|o: Option<VersionModel>| #[trigger]
                m.tables.newest(key@, ts, o) && opt_bytes_view(found) == value_of(o);
            lemma_newest_of_files(m, key@, ts, o);
            if let Some(w) = o {
                assert(is_newest_by(m, key@, ts, w) && w.value == opt_bytes_view(found));
            }
        },
    }
}

/// A write changes nothing of the keys that it does not write, nor of what readers
/// before it see.
pub proof fn law_write_leaves_the_rest<F: FileIO, S: SstFormat, H: EngineHook, P: CompactionPicker, C: Clock>(
    e: &mut Engine<F, S, H, P, C>,
    tx_id: u64,
    mutations: &[Mutation],
    r: Result<u64>,
    key: Seq<u8>,
    at: u64,
    v: Option<Seq<u8>>,
)
    requires
        call_ensures(Engine::<F, S, H, P, C>::write_with_tx, (e, tx_id, mutations), r),
        in_step(old(e)@.write),
        old(e)@.write.commit_seq < u64::MAX,
        at < OPEN_ENDED_TS,
        r is Err || at < old(e)@.write.commit_seq || forall|j: int|
            0 <= j < mutations@.len() ==> (#[trigger] mutations@[j])@.key != key,
    ensures
        final(e)@.tables.reads(final(e)@.write.chains, key, at, v) <==> old(e)@.tables.reads(
            old(e)@.write.chains,
            key,
            at,
            v,
        ),
{
    let ms = mutation_models(mutations@);
    let rs = mutation_records(tx_id, ms);
    if r is Ok {
        lemma_records(tx_id, mutations@);
        if at >= old(e)@.write.commit_seq {
            assert forall|j: int| 0 <= j < rs.len() implies (#[trigger] rs[j]).key != key by {
                assert(mutations@[j]@.key != key);
            }
            lemma_no_write(rs, key);
        }
        law_write_keeps_other_reads(old(e)@, tx_id, ms, key, at, v);
        assert(final(e)@.write.chains == committed(old(e)@.write, tx_id, ms).chains);
    } else {
        assert(final(e)@.write.chains == old(e)@.write.chains);
    }
}

/// A flush moves the memtable into a file on the first level and changes nothing
/// that is read. Its rows are counted with their tables, and it is counted itself
/// with the bytes that it wrote.
pub proof fn law_flush_moves_the_memtable(
    m: EngineModel,
    n: EngineModel,
    h: SstHandle,
    stamp: u64,
    key: Seq<u8>,
    at: u64,
    v: Option<Seq<u8>>,
    w: Option<Seq<u8>>,
    prefix: Seq<u8>,
)
    requires
        flush_done(m.tables, n.tables, table_rows(m.write.chains), h, stamp),
        n.write == drained(m.write, h.bytes, n.write.log),
        healthy(m),
        lists_keys(sorted_keys(m.write.chains.dom()), m.write.chains.dom()),
        m.tables.version.next_file_id < u64::MAX,
        at < OPEN_ENDED_TS,
        m.tables.reads(m.write.chains, key, at, v),
    ensures
        n.tables.reads(n.write.chains, key, at, w) ==> v == w,
        n.write.chains.dom() == Set::<Seq<u8>>::empty(),
        n.write.bytes == 0,
        n.write.metrics.memtable_bytes == 0,
        n.write.commit_seq == m.write.commit_seq,
        m.write.metrics.flush_count < u64::MAX ==> n.write.metrics.flush_count
            == m.write.metrics.flush_count + 1,
        m.write.metrics.sst_bytes_written + h.bytes <= u64::MAX
            ==> n.write.metrics.sst_bytes_written == m.write.metrics.sst_bytes_written + h.bytes,
        h.file_id == m.tables.version.next_file_id,
        is_at(n.tables.version, 0, h.file_id),
        number_of(n.tables.table_rows, prefix) == in_counter(
            number_of(m.tables.table_rows, prefix) + rows_under(
                table_rows(m.write.chains),
                prefix,
            ),
        ),
        m.tables.row_count + table_rows(m.write.chains).len() <= usize::MAX
            ==> n.tables.row_count == m.tables.row_count + table_rows(m.write.chains).len(),
{
    let rs = table_rows(m.write.chains);
    let meta = handle_meta(h, stamp);
    if m.tables.row_count + rs.len() <= usize::MAX {
        vstd::arithmetic::div_mod::lemma_small_mod(
            (m.tables.row_count + rs.len()) as nat,
            (usize::MAX + 1) as nat,
        );
    }
    assert(n.write.chains =~= Map::empty());
    if n.tables.reads(Map::empty(), key, at, w) {
        law_flush_keeps_reads(m.tables, n.tables, m.write.chains, meta, key, at, v, w);
    }
    lemma_flush_version(m.tables.version, m.tables.version.next_file_id, meta);
    assert(n.tables.version.holds(0, h.file_id));
    assert(n.tables.table_rows.contains_key(prefix) <==> m.tables.table_rows.contains_key(prefix)
        || rows_under(rs, prefix) > 0);
}

/// Dropping a table hides its keys from every reader, takes them out of the
/// memtable and says how many those were; no other table is touched.
pub proof fn law_dropped_table_reads_as_nothing<F: FileIO, S: SstFormat, H: EngineHook, P: CompactionPicker, C: Clock>(
    e: &mut Engine<F, S, H, P, C>,
    table: &str,
    n: usize,
    key: Seq<u8>,
    at: u64,
    v: Option<Seq<u8>>,
)
    requires
        call_ensures(Engine::<F, S, H, P, C>::drop_table_prefix, (e, table), Ok(n)),
        zero_free(encode_utf8(table@)),
    ensures
        has_prefix(key, table_prefix_of(table@)) && final(e)@.tables.reads(
            final(e)@.write.chains,
            key,
            at,
            v,
        ) ==> v is None,
        final(e)@.write.chains.contains_key(key) <==> old(e)@.write.chains.contains_key(key)
            && !has_prefix(key, table_prefix_of(table@)),
        final(e)@.write.chains.contains_key(key) ==> final(e)@.write.chains[key] == old(e)@.write.chains[key],
        old(e)@.write.chains.dom().finite() ==> n == old(e)@.write.chains.dom().filter(
            |k: Seq<u8>| has_prefix(k, table_prefix_of(table@)),
        ).len(),
        key_prefix(key) != table_prefix_of(table@) ==> (old(e)@.tables.reads(
            final(e)@.write.chains,
            key,
            at,
            v,
        ) <==> final(e)@.tables.reads(final(e)@.write.chains, key, at, v)),
{
    let prefix = table_prefix_of(table@);
    if has_prefix(key, prefix) {
        let rest = key.skip(prefix.len() as int);
        assert(key =~= prefix + rest);
        law_key_names_its_table(table@, rest);
    }
    law_drop_hides_table(old(e)@.tables, final(e)@.write.chains, prefix, key, at, v);
    if old(e)@.write.chains.dom().finite() {
        let gone = keys_with(old(e)@.write.chains.dom(), prefix);
        let ks = sorted_keys(gone);
        assert(gone.finite());
        lemma_listing_exists(gone);
        assert forall|i: int, j: int| 0 <= i < ks.len() && 0 <= j < ks.len() && i != j implies ks[i]
            != ks[j] by {
            lemma_lex_irreflexive(ks[i]);
            assert(i < j ==> lex_lt(ks[i], ks[j]));
            assert(j < i ==> lex_lt(ks[j], ks[i]));
        }
        assert(ks.no_duplicates());
        ks.unique_seq_to_set();
        assert(ks.to_set() =~= gone);
        assert(gone =~= old(e)@.write.chains.dom().filter(|k: Seq<u8>| has_prefix(k, prefix)));
    }
}

/// Ingesting batches puts of each key the last row of all batches that has it, in
/// key order and as the bytes of all its values, and nothing else. The key is made
/// of the columns that the table was first ingested with or, the first time, of
/// those that carry the primary key's names.
pub proof fn law_ingest_puts_the_last_rows<F: FileIO, S: SstFormat, H: EngineHook, P: CompactionPicker, C: Clock, K: PkCodec>(
    e: &mut Engine<F, S, H, P, C>,
    codec: &K,
    batches: &[ColumnBatch],
    table: &str,
    primary_key: &[String],
    ms: Vec<Mutation>,
)
    requires
        call_ensures(
            Engine::<F, S, H, P, C>::ingest_batches::<K>,
            (e, codec, batches, table, primary_key),
            Ok(ms),
        ),
    ensures
        final(e).known_keys().contains_key(table@),
        puts_last_rows(
            ms@,
            *codec,
            table@,
            final(e).known_keys()[table@],
            rows_of_batches(batches@),
        ),
        old(e).known_keys().contains_key(table@) ==> final(e).known_keys()[table@] == old(e).known_keys()[table@],
        !old(e).known_keys().contains_key(table@) ==> batches@.len() > 0 && are_key_columns(
            final(e).known_keys()[table@],
            batches@[0].schema@,
            primary_key@,
        ),
        final(e)@.write == old(e)@.write,
        batches@.len() > 0 ==> final(e)@.tables.schemas.contains_key(table@)
            && final(e)@.tables.schemas[table@] == batches@[0].schema@,
{
    let rows = rows_of_batches(batches@);
    let cols = final(e).known_keys()[table@];
    lemma_puts(ms@, *codec, table@, cols, rows);
}

/// A transaction id is given out once: the next one is above it, until the ids run
/// out, and none is the sentinel.
pub proof fn law_reserved_ids_ascend<F: FileIO, S: SstFormat, H: EngineHook, P: CompactionPicker, C: Clock>(
    e: &mut Engine<F, S, H, P, C>,
    r: u64,
)
    requires
        call_ensures(Engine::<F, S, H, P, C>::reserve_tx_id, (e,), r),
    ensures
        r > 0,
        r >= old(e)@.write.next_tx_id,
        r == old(e)@.write.next_tx_id || old(e)@.write.next_tx_id == 0,
        r < u64::MAX ==> final(e)@.write.next_tx_id == r + 1,
        final(e)@.write.chains == old(e)@.write.chains,
        final(e)@.write.log == old(e)@.write.log,
{
}

/// A read begins at the newest commit and holds that snapshot from then on.
pub proof fn law_reads_begin_at_the_newest_commit<F: FileIO, S: SstFormat, H: EngineHook, P: CompactionPicker, C: Clock>(
    e: &mut Engine<F, S, H, P, C>,
    r: u64,
    w: u64,
)
    requires
        call_ensures(Engine::<F, S, H, P, C>::begin_read, (e,), r),
        old(e)@.write.commit_seq > 0,
    ensures
        r == old(e)@.write.commit_seq - 1,
        final(e)@.pins.contains_key(r),
        is_watermark(w, final(e)@.pins, r) ==> w <= r,
        final(e)@.write == old(e)@.write,
{
}

/// A flush is due once the memtable has reached its threshold.
pub proof fn law_flush_is_due_at_the_threshold<F: FileIO, S: SstFormat, H: EngineHook, P: CompactionPicker, C: Clock>(
    e: &Engine<F, S, H, P, C>,
    r: bool,
)
    requires
        call_ensures(Engine::<F, S, H, P, C>::should_flush, (e,), r),
    ensures
        r <==> e@.write.bytes >= e.settings().memtable_flush_bytes,
{
}

/// The rows of a table are counted as the files tell, none where they tell of none;
/// and a scan's statistics are the versions in the memtable and the rows in files.
pub proof fn law_counts_are_told<F: FileIO, S: SstFormat, H: EngineHook, P: CompactionPicker, C: Clock>(
    e: &Engine<F, S, H, P, C>,
    table: &str,
    n: usize,
    stats: Option<ScanStats>,
)
    requires
        call_ensures(Engine::<F, S, H, P, C>::table_row_count, (e, table), n),
        call_ensures(Engine::<F, S, H, P, C>::scan_stats, (e,), stats),
    ensures
        n == number_of(e@.tables.table_rows, table_prefix_of(table@)),
        stats matches Some(s) && s.memtable_rows == table_rows(e@.write.chains).len() && s.sst_rows
            == e@.tables.row_count,
{
}

/// Filtering rows by predicates keeps exactly the live rows whose values satisfy all
/// of them, in order; without predicates all rows stay.
pub proof fn law_filtered_rows_are_the_matching(
    rows: &[VersionedRow],
    schema: &Schema,
    predicates: &[ColumnPredicate],
    out: Vec<VersionedRow>,
)
    requires
        call_ensures(apply_row_predicates, (rows, schema, predicates), Ok(out)),
    ensures
        predicates@.len() == 0 ==> row_models(out@) == row_models(rows@),
        predicates@.len() > 0 && schema@.len() > 0 ==> row_models(out@) == row_models(rows@).filter(
            |r: RowModel| is_match(r, types_of(schema@), predicate_models(predicates@)),
        ),
{
    let ps = predicate_models(predicates@);
    let types = types_of(schema@);
    let ms = row_models(rows@);
    assert(ps.len() == predicates@.len());
    assert(types.len() == schema@.len());
    lemma_matches_stay(ms, types, ps);
}

proof fn lemma_matches_stay(rs: Seq<RowModel>, types: Seq<TypeModel>, ps: Seq<PredicateModel>)
    ensures
        rs.filter(|r: RowModel| row_stays(r, types, ps)) == rs.filter(
            |r: RowModel| is_match(r, types, ps),
        ),
    decreases rs.len(),
{
    reveal(Seq::filter);
    if rs.len() > 0 {
        lemma_matches_stay(rs.drop_last(), types, ps);
        law_scans_keep_the_matching_rows(
            rs,
            Seq::empty(),
            Seq::empty(),
            0,
            types,
            ps,
        );
        assert(row_stays(rs.last(), types, ps) == is_match(rs.last(), types, ps));
    }
}

// ── Compactions ───────────────────────────────────────────────────────────

/// A file on one of the two levels.
pub open spec fn on_either(m: TablesModel, sl: u32, tl: u32, id: u64) -> bool {
    is_at(m.version, sl, id) || is_at(m.version, tl, id)
}

proof fn lemma_inputs_are_on_either(m: TablesModel, sl: u32, tl: u32, inputs: Seq<u64>, id: u64)
    requires
        lists(inputs, level_files(m.version, sl, tl)),
    ensures
        inputs.contains(id) <==> on_either(m, sl, tl, id),
{
    assert(level_files(m.version, sl, tl).contains(id) <==> inputs.contains(id));
}

/// A compaction of two levels into one file changes nothing that is read at the
/// watermark or later. It is made where there are two files at least, and then all
/// files of the two levels go into it.
pub proof fn law_compaction_changes_no_read<F: FileIO, S: SstFormat>(
    before: Tables<F, S>,
    after: Tables<F, S>,
    sl: u32,
    tl: u32,
    watermark: u64,
    stamp: u64,
    h: SstHandle,
    chains: Chains,
    key: Seq<u8>,
    at: u64,
    v: Option<Seq<u8>>,
    w: Option<Seq<u8>>,
)
    requires
        compact_outcome(before, after, sl, tl, watermark, stamp, Ok(Some(h))),
        before.sound(),
        before.clean_ahead(),
        before@.version.next_file_id + 1 < u64::MAX,
        before@.agrees(),
        watermark <= at < OPEN_ENDED_TS,
        before@.reads(chains, key, at, v),
        after@.reads(chains, key, at, w),
    ensures
        v == w,
        exists|a: u64, b: u64|
            a != b && #[trigger] on_either(before@, sl, tl, a) && #[trigger] on_either(
                before@,
                sl,
                tl,
                b,
            ),
        forall|id: u64| #[trigger]
            on_either(before@, sl, tl, id) && id != h.file_id ==> !after@.live(id),
        after@.live(h.file_id),
        forall|id: u64| #[trigger]
            before@.live(id) && !on_either(before@, sl, tl, id) ==> after@.live(id),
{
    let inputs = choose|inputs: Seq<u64>| #[trigger]
        lists(inputs, level_files(before@.version, sl, tl)) && inputs.len() >= 2 && after.compacts(
            &before,
            inputs,
            seq![inputs],
            sl,
            tl,
            watermark,
            stamp,
            seq![h],
        );
    lemma_one_chunk_covers(inputs);
    assert(before.ready_for(inputs, sl, tl, seq![inputs]));
    let chunks = with_outputs(seq![inputs], seq![h]);
    assert(is_compacted(before@, after@, chunks, watermark));
    law_compaction_keeps_reads(before@, after@, chunks, watermark, chains, key, at, v, w);
    assert(chunks[0] == (inputs, h.file_id));
    assert(inputs.contains(inputs[0]) && inputs.contains(inputs[1]));
    lemma_inputs_are_on_either(before@, sl, tl, inputs, inputs[0]);
    lemma_inputs_are_on_either(before@, sl, tl, inputs, inputs[1]);
    assert(inputs[0] < inputs[1]);
    assert(on_either(before@, sl, tl, inputs[0]) && on_either(before@, sl, tl, inputs[1]));
    assert forall|id: u64| #[trigger] on_either(before@, sl, tl, id) && id
        != h.file_id implies !after@.live(id) by {
        lemma_inputs_are_on_either(before@, sl, tl, inputs, id);
        assert(chunks[0].0.contains(id));
        assert(is_input(chunks, id));
    }
    assert(is_output(chunks, h.file_id)) by {
        assert(chunks[0].1 == h.file_id);
    }
    assert forall|id: u64| #[trigger] before@.live(id) && !on_either(
        before@,
        sl,
        tl,
        id,
    ) implies after@.live(id) by {
        lemma_inputs_are_on_either(before@, sl, tl, inputs, id);
        if is_input(chunks, id) {
            let c = choose|c: int| 0 <= c < chunks.len() && (#[trigger] chunks[c]).0.contains(id);
            assert(c == 0);
        }
    }
}

/// Two levels with fewer than two files are left as they are.
pub proof fn law_single_file_is_not_compacted<F: FileIO, S: SstFormat>(
    before: Tables<F, S>,
    after: Tables<F, S>,
    sl: u32,
    tl: u32,
    watermark: u64,
    stamp: u64,
    a: u64,
    b: u64,
)
    requires
        compact_outcome(before, after, sl, tl, watermark, stamp, Ok(None)),
        on_either(before@, sl, tl, a),
        on_either(before@, sl, tl, b),
    ensures
        a == b,
        after == before,
{
    let inputs = choose|inputs: Seq<u64>| #[trigger]
        lists(inputs, level_files(before@.version, sl, tl)) && inputs.len() < 2 && after == before;
    lemma_inputs_are_on_either(before@, sl, tl, inputs, a);
    lemma_inputs_are_on_either(before@, sl, tl, inputs, b);
}

/// A compaction by parts changes nothing that is read at the watermark or later.
pub proof fn law_compaction_by_parts_changes_no_read<F: FileIO, S: SstFormat>(
    before: Tables<F, S>,
    after: Tables<F, S>,
    sl: u32,
    tl: u32,
    watermark: u64,
    stamp: u64,
    hs: Vec<SstHandle>,
    chains: Chains,
    key: Seq<u8>,
    at: u64,
    v: Option<Seq<u8>>,
    w: Option<Seq<u8>>,
)
    requires
        sub_compact_outcome(before, after, sl, tl, watermark, stamp, Ok(Some(hs))),
        before.sound(),
        before.clean_ahead(),
        before@.version.next_file_id + hs@.len() < u64::MAX,
        before@.agrees(),
        watermark <= at < OPEN_ENDED_TS,
        before@.reads(chains, key, at, v),
        after@.reads(chains, key, at, w),
    ensures
        v == w,
{
    let inputs = choose|inputs: Seq<u64>| #[trigger]
        lists(inputs, level_files(before@.version, sl, tl)) && ({
            let chunks = chunks_of(
                split(inputs, before@.version.meta, SUB_COMPACTION_MAX_BYTES),
            );
            &&& before.ready_for(inputs, sl, tl, chunks) ==> after.sound()
            &&& inputs.len() >= 2
            &&& after.compacts(&before, inputs, chunks, sl, tl, watermark, stamp, hs@)
        });
    let meta = before@.version.meta;
    let chunks = chunks_of(split(inputs, meta, SUB_COMPACTION_MAX_BYTES));
    law_split_covers(inputs, meta, SUB_COMPACTION_MAX_BYTES);
    assert(before.ready_for(inputs, sl, tl, chunks));
    law_compaction_keeps_reads(
        before@,
        after@,
        with_outputs(chunks, hs@),
        watermark,
        chains,
        key,
        at,
        v,
        w,
    );
}

} // verus!
