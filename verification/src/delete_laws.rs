//! What deleting rows of a table by predicates comes down to.

use crate::buf::bytes_view;
use crate::chain_store::chains_read;
use crate::clock::Clock;
use crate::column_predicate::{predicate_models, row_satisfies, ColumnPredicate};
use crate::committer::snapshot_of;
use crate::compaction::CompactionPicker;
use crate::dml::{deletes_of, matching_keys, row_key, rows_of_batches};
use crate::dml_laws::law_matching_keys_are_of_matching_rows;
use crate::engine::{deletes_matching, Engine};
use crate::engine_laws::healthy;
use crate::error::EngineError;
use crate::file_io::FileIO;
use crate::hook::EngineHook;
use crate::keys::{table_key, table_prefix_of, zero_free};
use crate::mutation::{mutation_models, Mutation};
use crate::pk::{are_key_columns, fixed_parts, fixes_key, PkCodec};
use crate::schema::{ColumnBatch, FieldModel};
use crate::sst_format::SstFormat;
use crate::table_scan::is_table_scan;
use crate::table_scan_laws::{are_live_keys, are_rows_of_keys, lemma_scanned_rows, named_columns};
use crate::tables_model::value_of;
use crate::version::{VersionModel, OPEN_ENDED_TS};
use vstd::prelude::*;
use vstd::utf8::encode_utf8;

verus! {

/// The mutations delete exactly the keys of the rows that satisfy every predicate.
pub open spec fn deletes_matches<K: PkCodec>(
    ms: Seq<Mutation>,
    codec: K,
    table: Seq<char>,
    cols: Seq<(usize, String)>,
    bs: Seq<ColumnBatch>,
    predicates: Seq<ColumnPredicate>,
) -> bool {
    let rows = rows_of_batches(bs);
    &&& forall|j: int| 0 <= j < ms.len() ==> #[trigger] ms[j] is Delete
    &&& forall|j: int|
        0 <= j < ms.len() ==> exists|g: int|
            0 <= g < rows.len() && row_satisfies(#[trigger] rows[g], predicate_models(predicates))
                && (#[trigger] ms[j])@.key == row_key(codec, table, cols, rows[g])
    &&& forall|g: int|
        0 <= g < rows.len() && row_satisfies(#[trigger] rows[g], predicate_models(predicates))
            ==> exists|j: int|
            0 <= j < ms.len() && (#[trigger] ms[j])@.key == row_key(codec, table, cols, rows[g])
}

/// Deleting the rows of a table that satisfy predicates deletes the key of each of
/// its live rows that satisfies all of them, and no other key: the rows are those of
/// the keys that a read at the latest commit finds, with the values it gives.
pub proof fn law_live_rows_that_match_are_deleted<F: FileIO, S: SstFormat, H: EngineHook, P: CompactionPicker, C: Clock, K: PkCodec>(
    e: &mut Engine<F, S, H, P, C>,
    codec: &K,
    table: &str,
    primary_key: &[String],
    predicates: &[ColumnPredicate],
    ms: Vec<Mutation>,
    fields: Seq<FieldModel>,
) -> (found: (Seq<ColumnBatch>, Seq<Seq<u8>>, Seq<(usize, String)>))
    requires
        call_ensures(
            Engine::<F, S, H, P, C>::delete_with_column_predicates::<K>,
            (e, codec, table, primary_key, predicates),
            Ok(ms),
        ),
        healthy(old(e)@),
        old(e)@.write.chains.dom().finite(),
        snapshot_of(old(e)@.write) < OPEN_ENDED_TS,
        zero_free(encode_utf8(table@)),
        !old(e)@.tables.version.dropped.contains(table_prefix_of(table@)),
        fields == old(e)@.tables.schemas[table@],
        !fixes_key(*codec, predicate_models(predicates@), primary_key@, fields),
    ensures
        old(e)@.tables.schemas.contains_key(table@),
        are_live_keys(
            found.1,
            old(e)@.tables,
            old(e)@.write.chains,
            table@,
            snapshot_of(old(e)@.write),
        ),
        are_rows_of_keys(
            found.0,
            found.1,
            old(e)@.tables,
            old(e)@.write.chains,
            fields,
            named_columns(None, fields.len()),
            snapshot_of(old(e)@.write),
        ),
        are_key_columns(found.2, fields, primary_key@),
        deletes_matches(ms@, *codec, table@, found.2, found.0, predicates@),
{
    let m = old(e)@;
    let ps = predicate_models(predicates@);
    let r = Ok::<Vec<Mutation>, EngineError>(ms);
    let (bs, cols) = choose|bs: Seq<ColumnBatch>, cols: Seq<(usize, String)>|
        is_table_scan(
            bs,
            m.tables,
            m.write.chains,
            table@,
            fields,
            None,
            snapshot_of(m.write),
        ) && are_key_columns(cols, fields, primary_key@) && #[trigger] deletes_matching(
            *codec,
            table@,
            bs,
            cols,
            ps,
            r,
        );
    let ks = lemma_scanned_rows(
        bs,
        m.tables,
        m.write.chains,
        table@,
        fields,
        None,
        snapshot_of(m.write),
    );
    lemma_deletes(ms@, *codec, table@, cols, bs, predicates@);
    (bs, ks, cols)
}

proof fn lemma_deletes<K: PkCodec>(
    ms: Seq<Mutation>,
    codec: K,
    table: Seq<char>,
    cols: Seq<(usize, String)>,
    bs: Seq<ColumnBatch>,
    predicates: Seq<ColumnPredicate>,
)
    requires
        mutation_models(ms) == deletes_of(
            matching_keys(codec, table, cols, rows_of_batches(bs), predicate_models(predicates)),
        ),
    ensures
        deletes_matches(ms, codec, table, cols, bs, predicates),
{
    let rows = rows_of_batches(bs);
    let ps = predicate_models(predicates);
    let keys = matching_keys(codec, table, cols, rows, ps);
    let ds = deletes_of(keys);
    assert(mutation_models(ms).len() == ms.len());
    assert forall|j: int| 0 <= j < ms.len() implies (#[trigger] ms[j])@ == ds[j] && ms[j]@.key
        == keys[j] && ms[j] is Delete by {
        assert(mutation_models(ms)[j] == ms[j]@);
    }
    assert forall|j: int| 0 <= j < ms.len() implies exists|g: int|
        0 <= g < rows.len() && row_satisfies(#[trigger] rows[g], ps) && (#[trigger] ms[j])@.key
            == row_key(codec, table, cols, rows[g]) by {
        assert(keys.contains(keys[j]));
        law_matching_keys_are_of_matching_rows(
            codec,
            table,
            cols,
            rows,
            Seq::empty(),
            Seq::empty(),
            ps,
            keys[j],
        );
        assert(ms[j]@.key == keys[j]);
    }
    assert forall|g: int| 0 <= g < rows.len() && row_satisfies(
        #[trigger] rows[g],
        ps,
    ) implies exists|j: int|
        0 <= j < ms.len() && (#[trigger] ms[j])@.key == row_key(codec, table, cols, rows[g]) by {
        let k = row_key(codec, table, cols, rows[g]);
        law_matching_keys_are_of_matching_rows(
            codec,
            table,
            cols,
            rows,
            Seq::empty(),
            Seq::empty(),
            ps,
            k,
        );
        let j = choose|j: int| 0 <= j < keys.len() && keys[j] == k;
        assert(ms[j]@.key == k);
    }
}

/// Where the predicates fix the whole key, that key is deleted and no other, and
/// only where a read at the latest commit finds it live.
pub proof fn law_fixed_key_is_deleted<F: FileIO, S: SstFormat, H: EngineHook, P: CompactionPicker, C: Clock, K: PkCodec>(
    e: &mut Engine<F, S, H, P, C>,
    codec: &K,
    table: &str,
    primary_key: &[String],
    predicates: &[ColumnPredicate],
    ms: Vec<Mutation>,
    fields: Seq<FieldModel>,
    key: Seq<u8>,
)
    requires
        call_ensures(
            Engine::<F, S, H, P, C>::delete_with_column_predicates::<K>,
            (e, codec, table, primary_key, predicates),
            Ok(ms),
        ),
        old(e).sound(),
        fields == old(e)@.tables.schemas[table@],
        fixes_key(*codec, predicate_models(predicates@), primary_key@, fields),
        key == table_key(
            table@,
            fixed_parts(*codec, predicate_models(predicates@), primary_key@, fields),
        ),
        !old(e)@.tables.is_dropped(key),
    ensures
        ms@.len() == 1,
        ms@[0] matches Mutation::Delete { key: k } && bytes_view(k) == key,
        exists|v: Seq<u8>|
            old(e)@.tables.reads(
                old(e)@.write.chains,
                key,
                snapshot_of(old(e)@.write),
                Some(v),
            ),
{
    let m = old(e)@;
    let ts = snapshot_of(m.write);
    let ds = deletes_of(seq![key]);
    assert(mutation_models(ms@) == ds);
    assert(mutation_models(ms@).len() == ms@.len());
    assert(mutation_models(ms@)[0] == ms@[0]@);
    match chains_read(m.write.chains, key, ts) {
        Some(v) => {
            assert(m.tables.reads(m.write.chains, key, ts, Some(v.value->0)));
        },
        None => {
            let w = choose|w: Option<VersionModel>|
                #[trigger] m.tables.newest(key, ts, w) && value_of(w) is Some;
            assert(m.tables.reads(
                m.write.chains,
                key,
                ts,
                Some(value_of(w)->0),
            ));
        },
    }
}

} // verus!
