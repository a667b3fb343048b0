//! What the models of rows, records, edits and schemas take over from them.

use crate::buf::{bytes_view, opt_bytes_view};
use crate::committer::{event_models, pending_models, PendingWrite};
use crate::compaction::FileMeta;
use crate::memtable::{row_models, VersionedRow};
use crate::mutation::{mutation_models, Mutation};
use crate::schema::{types_of, ColumnBatch, Schema};
use crate::version_set::{edit_models, EditModel, VersionEdit};
use crate::wal::{mutation_records, record_models, OpType, WalRecord};
use crate::watch::WatchEvent;
use vstd::prelude::*;

verus! {

/// A mutation asks for its key and its value, a delete for none; a list of them
/// asks in its order.
pub proof fn law_mutations_ask_for_what_they_carry(ms: Seq<Mutation>, i: int)
    requires
        0 <= i < ms.len(),
    ensures
        mutation_models(ms).len() == ms.len(),
        ms[i] matches Mutation::Put { key, value } ==> {
            &&& mutation_models(ms)[i].key == bytes_view(key)
            &&& mutation_models(ms)[i].value == Some(bytes_view(value))
        },
        ms[i] matches Mutation::Delete { key } ==> {
            &&& mutation_models(ms)[i].key == bytes_view(key)
            &&& mutation_models(ms)[i].value is None
        },
{
}

/// A transaction is logged mutation by mutation, in order: a put with its value, a
/// delete without one.
pub proof fn law_mutations_are_logged_in_order(tx_id: u64, ms: Seq<Mutation>, i: int)
    requires
        0 <= i < ms.len(),
    ensures
        ({
            let rs = mutation_records(tx_id, mutation_models(ms));
            &&& rs.len() == ms.len()
            &&& rs[i].tx_id == tx_id
            &&& ms[i] matches Mutation::Put { key, value } ==> rs[i].op == OpType::Put && rs[i].key
                == bytes_view(key) && rs[i].value == Some(bytes_view(value))
            &&& ms[i] matches Mutation::Delete { key } ==> rs[i].op == OpType::Delete && rs[i].key
                == bytes_view(key) && rs[i].value is None
        }),
{
}

/// Records and rows say what they carry, in order.
pub proof fn law_records_and_rows_say_what_they_carry(
    rs: Seq<WalRecord>,
    rows: Seq<VersionedRow>,
    i: int,
    j: int,
)
    ensures
        record_models(rs).len() == rs.len(),
        row_models(rows).len() == rows.len(),
        0 <= i < rs.len() ==> {
            let r = record_models(rs)[i];
            &&& r.tx_id == rs[i].tx_id
            &&& r.op == rs[i].op
            &&& r.key == bytes_view(rs[i].key)
            &&& r.value == opt_bytes_view(rs[i].value)
        },
        0 <= j < rows.len() ==> {
            let r = row_models(rows)[j];
            &&& r.key == bytes_view(rows[j].key)
            &&& r.version.value == opt_bytes_view(rows[j].version.value)
            &&& r.version.begin_ts == rows[j].version.begin_ts
            &&& r.version.end_ts == rows[j].version.end_ts
            &&& r.version.tx_id == rows[j].version.tx_id
        },
{
}

/// Edits say what they carry, in order.
pub proof fn law_edits_say_what_they_carry(es: Seq<VersionEdit>, i: int)
    requires
        0 <= i < es.len(),
    ensures
        edit_models(es).len() == es.len(),
        es[i] matches VersionEdit::AddFile { file_id, level, min_key, max_key, bytes, created_at }
            ==> {
            &&& edit_models(es)[i] matches EditModel::AddFile(id, l, meta)
            &&& id == file_id && l == level
            &&& meta.min_key == bytes_view(min_key) && meta.max_key == bytes_view(max_key)
            &&& meta.bytes == bytes && meta.created_at == created_at
        },
        es[i] matches VersionEdit::DeleteFile { file_id, level } ==> edit_models(es)[i]
            == EditModel::DeleteFile(file_id, level),
        es[i] matches VersionEdit::NextFileId(id) ==> edit_models(es)[i] == EditModel::NextFileId(
            id,
        ),
        es[i] matches VersionEdit::DroppedPrefix(p) ==> edit_models(es)[i]
            == EditModel::DroppedPrefix(p@),
        es[i] matches VersionEdit::UndroppedPrefix(p) ==> edit_models(es)[i]
            == EditModel::UndroppedPrefix(p@),
{
}

/// Pending writes and events keep their transaction and all of their mutations.
pub proof fn law_writes_and_events_keep_their_mutations(
    ps: Seq<PendingWrite>,
    es: Seq<WatchEvent>,
    i: int,
    j: int,
)
    ensures
        pending_models(ps).len() == ps.len(),
        event_models(es).len() == es.len(),
        0 <= i < ps.len() ==> pending_models(ps)[i].0 == ps[i].tx_id && pending_models(ps)[i].1
            == mutation_models(ps[i].mutations@),
        0 <= j < es.len() ==> {
            let e = event_models(es)[j];
            &&& e.tx_id == es[j].tx_id
            &&& e.commit_ts == es[j].commit_ts
            &&& e.mutations == mutation_models(es[j].mutations@)
        },
{
}

/// A schema and a batch say of every column what is declared of it and which values
/// it holds.
pub proof fn law_schemas_and_batches_say_what_they_hold(
    s: Schema,
    b: ColumnBatch,
    c: int,
    i: int,
)
    requires
        0 <= c < b.columns@.len(),
        0 <= i < b.columns@[c]@.len(),
    ensures
        s@.len() == s.fields@.len(),
        types_of(s@).len() == s.fields@.len(),
        c < s.fields@.len() ==> {
            &&& s@[c].name == s.fields@[c].name@
            &&& s@[c].ty == s.fields@[c].data_type@
            &&& s@[c].nullable == s.fields@[c].nullable
            &&& types_of(s@)[c] == s.fields@[c].data_type@
        },
        b.cells().len() == b.columns@.len(),
        b.cells()[c][i] == b.columns@[c]@[i]@,
        b.row(i)[c] == b.columns@[c]@[i]@,
{
}

/// What a picker is told of a file is what its metadata says.
pub proof fn law_file_metadata_says_what_it_holds(f: FileMeta)
    ensures
        f@.file_id == f.file_id,
        f@.level == f.level,
        f@.bytes == f.bytes,
        f@.created_at == f.created_at,
        f@.min_key == bytes_view(f.min_key),
        f@.max_key == bytes_view(f.max_key),
{
}

} // verus!
