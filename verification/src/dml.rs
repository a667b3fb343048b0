//! Rows as mutations: what inserting or deleting rows of a table asks for.

use crate::buf::{
    bytes_from_vec, bytes_slice, bytes_view, key_views, lists_keys, sorted_keys, ByteMap,
};
use crate::column_predicate::{
    predicate_models, row_matches, row_satisfies, ColumnPredicate, PredicateModel,
};
use crate::error::{EngineError, Result};
use crate::keys::table_key;
use crate::mutation::{mutation_models, Mutation, MutationModel};
use crate::pk::{
    batch_row, build_pk_key, build_pk_key_from_scalars, is_key_fault, key_fault, key_parts, PkCodec,
};
use crate::row_codec::{encode_row, is_store_error, row_bytes, storable};
use crate::scalar::ScalarModel;
use crate::schema::ColumnBatch;
use crate::version::VersionedValue;
use bytes::Bytes;
use vstd::prelude::*;

verus! {

/// The first `n` rows of a batch.
pub open spec fn first_rows_of(b: ColumnBatch, n: int) -> Seq<Seq<ScalarModel>> {
    Seq::new(n as nat, |i: int| b.row(i))
}

/// The rows of all batches, in order.
pub open spec fn rows_of_batches(bs: Seq<ColumnBatch>) -> Seq<Seq<ScalarModel>>
    decreases bs.len(),
{
    if bs.len() == 0 {
        Seq::empty()
    } else {
        rows_of_batches(bs.drop_last()) + first_rows_of(bs.last(), bs.last().num_rows as int)
    }
}

/// The storage key of a row.
pub open spec fn row_key<K: PkCodec>(
    codec: K,
    table: Seq<char>,
    cols: Seq<(usize, String)>,
    cells: Seq<ScalarModel>,
) -> Seq<u8> {
    table_key(table, key_parts(codec, cells, cols))
}

/// The row has a key and can be stored.
pub open spec fn row_fits<K: PkCodec>(
    codec: K,
    cols: Seq<(usize, String)>,
    cells: Seq<ScalarModel>,
) -> bool {
    &&& key_fault(codec, cells, cols, cols.len()) is None
    &&& forall|i: int| 0 <= i < cells.len() ==> storable(#[trigger] cells[i])
}

/// Why a row cannot be inserted: it has no key, or else its first cell that
/// cannot be stored.
pub open spec fn is_row_error<K: PkCodec>(
    e: EngineError,
    codec: K,
    table: Seq<char>,
    cols: Seq<(usize, String)>,
    cells: Seq<ScalarModel>,
) -> bool {
    match key_fault(codec, cells, cols, cols.len()) {
        Some(f) => is_key_fault(e, f, table, cols),
        None => exists|i: int|
            0 <= i < cells.len() && !storable(#[trigger] cells[i]) && is_store_error(e, cells[i])
                && forall|j: int| 0 <= j < i ==> storable(#[trigger] cells[j]),
    }
}

/// What the rows store: the last row of each key.
pub open spec fn stored_rows<K: PkCodec>(
    codec: K,
    table: Seq<char>,
    cols: Seq<(usize, String)>,
    rows: Seq<Seq<ScalarModel>>,
) -> Map<Seq<u8>, Seq<u8>>
    decreases rows.len(),
{
    if rows.len() == 0 {
        Map::empty()
    } else {
        stored_rows(codec, table, cols, rows.drop_last()).insert(
            row_key(codec, table, cols, rows.last()),
            row_bytes(rows.last()),
        )
    }
}

/// One put for every key, in key order.
pub open spec fn puts_of(m: Map<Seq<u8>, Seq<u8>>) -> Seq<MutationModel> {
    sorted_keys(m.dom()).map_values(
        |k: Seq<u8>| MutationModel { key: k, value: Some(m[k]) },
    )
}

/// Every row fits.
pub open spec fn all_rows_fit<K: PkCodec>(
    codec: K,
    cols: Seq<(usize, String)>,
    rows: Seq<Seq<ScalarModel>>,
) -> bool {
    forall|i: int| 0 <= i < rows.len() ==> row_fits(codec, cols, #[trigger] rows[i])
}

/// The error tells of the first row that does not fit.
pub open spec fn is_first_row_error<K: PkCodec>(
    e: EngineError,
    codec: K,
    table: Seq<char>,
    cols: Seq<(usize, String)>,
    rows: Seq<Seq<ScalarModel>>,
) -> bool {
    exists|i: int|
        0 <= i < rows.len() && is_row_error(e, codec, table, cols, #[trigger] rows[i])
            && !row_fits(codec, cols, rows[i]) && all_rows_fit(codec, cols, rows.take(i))
}

/// What a map of payloads holds.
pub open spec fn payload_map(m: Map<Seq<u8>, Bytes>) -> Map<Seq<u8>, Seq<u8>> {
    m.map_values(|b: Bytes| bytes_view(b))
}

proof fn lemma_rows_of_prefix(bs: Seq<ColumnBatch>, b: int, r: int)
    requires
        0 <= b < bs.len(),
        0 <= r <= bs[b].num_rows,
    ensures
        ({
            let seen = rows_of_batches(bs.take(b)) + first_rows_of(bs[b], r);
            &&& seen.len() <= rows_of_batches(bs).len()
            &&& rows_of_batches(bs).take(seen.len() as int) == seen
        }),
    decreases bs.len(),
{
    let seen = rows_of_batches(bs.take(b)) + first_rows_of(bs[b], r);
    if b == bs.len() - 1 {
        assert(bs.take(b) =~= bs.drop_last());
        assert(rows_of_batches(bs).take(seen.len() as int) =~= seen);
    } else {
        lemma_rows_of_prefix(bs.drop_last(), b, r);
        assert(bs.drop_last().take(b) =~= bs.take(b));
        assert(bs.drop_last()[b] == bs[b]);
        assert(rows_of_batches(bs).take(seen.len() as int) =~= rows_of_batches(
            bs.drop_last(),
        ).take(seen.len() as int));
    }
}

/// Turns rows into puts, one for each key: a later row replaces an earlier one
/// of the same key.
pub fn puts_for_rows<K: PkCodec>(
    codec: &K,
    table: &str,
    batches: &[ColumnBatch],
    pk_columns: &[(usize, String)],
) -> (r: Result<Vec<Mutation>>)
    requires
        forall|b: int| 0 <= b < batches@.len() ==> (#[trigger] batches@[b]).wf(),
        forall|b: int, i: int|
            #![trigger batches@[b], pk_columns@[i]]
            0 <= b < batches@.len() && batches@[b].num_rows > 0 && 0 <= i < pk_columns@.len()
                ==> pk_columns@[i].0 < batches@[b].schema@.len(),
    ensures
        ({
            let rows = rows_of_batches(batches@);
            let cols = pk_columns@;
            &&& r is Ok <==> all_rows_fit(*codec, cols, rows)
            &&& r matches Ok(ms) ==> mutation_models(ms@) == puts_of(
                stored_rows(*codec, table@, cols, rows),
            )
            &&& r matches Err(e) ==> is_first_row_error(e, *codec, table@, cols, rows)
        }),
{
    let ghost bs = batches@;
    let ghost cols = pk_columns@;
    let ghost all = rows_of_batches(bs);
    let mut merged: ByteMap<Bytes> = ByteMap::new();
    let mut b: usize = 0;
    proof {
        assert(bs.take(0) =~= Seq::<ColumnBatch>::empty());
        assert(payload_map(merged@) =~= Map::<Seq<u8>, Seq<u8>>::empty());
    }
    while b < batches.len()
        invariant
            b <= batches@.len(),
            bs == batches@,
            cols == pk_columns@,
            all == rows_of_batches(bs),
            forall|c: int| 0 <= c < batches@.len() ==> (#[trigger] batches@[c]).wf(),
            forall|c: int, i: int|
                #![trigger batches@[c], pk_columns@[i]]
                0 <= c < batches@.len() && batches@[c].num_rows > 0 && 0 <= i < pk_columns@.len()
                    ==> pk_columns@[i].0 < batches@[c].schema@.len(),
            merged.wf(),
            payload_map(merged@) == stored_rows(
                *codec,
                table@,
                cols,
                rows_of_batches(bs.take(b as int)),
            ),
            all_rows_fit(*codec, cols, rows_of_batches(bs.take(b as int))),
        decreases batches@.len() - b,
    {
        let batch = &batches[b];
        let ghost head = rows_of_batches(bs.take(b as int));
        let mut row: usize = 0;
        assert(head + first_rows_of(*batch, 0) =~= head);
        while row < batch.num_rows
            invariant
                b < batches@.len(),
                bs == batches@,
                *batch == bs[b as int],
                batch.wf(),
                cols == pk_columns@,
                all == rows_of_batches(bs),
                head == rows_of_batches(bs.take(b as int)),
                forall|i: int|
                    batch.num_rows > 0 && 0 <= i < pk_columns@.len() ==> (
                    #[trigger] pk_columns@[i]).0 < batch.schema@.len(),
                row <= batch.num_rows,
                merged.wf(),
                payload_map(merged@) == stored_rows(
                    *codec,
                    table@,
                    cols,
                    head + first_rows_of(*batch, row as int),
                ),
                all_rows_fit(*codec, cols, head + first_rows_of(*batch, row as int)),
            decreases batch.num_rows - row,
        {
            let ghost seen = head + first_rows_of(*batch, row as int);
            let ghost cells = batch.row(row as int);
            let ghost next = head + first_rows_of(*batch, row + 1);
            proof {
                assert(next =~= seen.push(cells));
                assert(next.drop_last() =~= seen);
                lemma_rows_of_prefix(bs, b as int, row + 1);
                assert(all.take(next.len() as int) == next);
                assert(all[seen.len() as int] == next[seen.len() as int]);
                assert(all.take(seen.len() as int) =~= seen);
            }
            let key = match build_pk_key(codec, table, batch, row, pk_columns) {
                Ok(k) => k,
                Err(e) => {
                    proof {
                        assert(is_row_error(e, *codec, table@, cols, all[seen.len() as int]));
                        assert(!row_fits(*codec, cols, all[seen.len() as int]));
                    }
                    return Err(e);
                },
            };
            let payload = match encode_row(batch, row) {
                Ok(p) => p,
                Err(e) => {
                    proof {
                        assert(is_row_error(e, *codec, table@, cols, all[seen.len() as int]));
                        assert(!row_fits(*codec, cols, all[seen.len() as int]));
                    }
                    return Err(e);
                },
            };
            let ghost before = merged@;
            let value = bytes_from_vec(payload);
            merged.insert(key, value);
            proof {
                assert(row_fits(*codec, cols, cells));
                assert(payload_map(merged@) =~= payload_map(before).insert(
                    bytes_view(key),
                    bytes_view(value),
                ));
                assert forall|i: int| 0 <= i < next.len() implies row_fits(
                    *codec,
                    cols,
                    #[trigger] next[i],
                ) by {
                    if i < seen.len() {
                        assert(next[i] == seen[i]);
                    }
                }
            }
            row += 1;
        }
        proof {
            assert(bs.take(b + 1).drop_last() =~= bs.take(b as int));
            assert(bs.take(b + 1).last() == *batch);
        }
        b += 1;
    }
    assert(bs.take(b as int) =~= bs);
    let ghost m = stored_rows(*codec, table@, cols, all);
    let keys = merged.all_keys();
    let mut out: Vec<Mutation> = Vec::new();
    let mut i: usize = 0;
    proof {
        assert(merged@.dom() =~= m.dom());
        assert(mutation_models(out@) =~= puts_of(m).take(0));
    }
    while i < keys.len()
        invariant
            i <= keys@.len(),
            merged.wf(),
            payload_map(merged@) == m,
            merged@.dom() == m.dom(),
            key_views(keys@) == sorted_keys(m.dom()),
            lists_keys(sorted_keys(m.dom()), m.dom()),
            mutation_models(out@) == puts_of(m).take(i as int),
        decreases keys@.len() - i,
    {
        let ghost k = bytes_view(keys@[i as int]);
        proof {
            assert(key_views(keys@)[i as int] == k);
            assert(sorted_keys(m.dom()).contains(k));
            assert(m.dom().contains(k));
        }
        let ghost before = out@;
        match merged.get(bytes_slice(&keys[i])) {
            Some(value) => {
                out.push(Mutation::Put { key: keys[i].clone(), value: value.clone() });
            },
            None => {},
        }
        proof {
            assert(payload_map(merged@)[k] == bytes_view(merged@[k]));
            assert(mutation_models(out@) =~= mutation_models(before).push(
                MutationModel { key: k, value: Some(m[k]) },
            ));
            assert(puts_of(m).take(i + 1) =~= puts_of(m).take(i as int).push(
                puts_of(m)[i as int],
            ));
        }
        i += 1;
    }
    assert(puts_of(m).take(i as int) =~= puts_of(m));
    Ok(out)
}

/// The keys of the rows that satisfy the predicates, in order.
pub open spec fn matching_keys<K: PkCodec>(
    codec: K,
    table: Seq<char>,
    cols: Seq<(usize, String)>,
    rows: Seq<Seq<ScalarModel>>,
    ps: Seq<PredicateModel>,
) -> Seq<Seq<u8>>
    decreases rows.len(),
{
    if rows.len() == 0 {
        Seq::empty()
    } else {
        let front = matching_keys(codec, table, cols, rows.drop_last(), ps);
        if row_satisfies(rows.last(), ps) {
            front.push(row_key(codec, table, cols, rows.last()))
        } else {
            front
        }
    }
}

/// One delete for every key.
pub open spec fn deletes_of(keys: Seq<Seq<u8>>) -> Seq<MutationModel> {
    keys.map_values(|k: Seq<u8>| MutationModel { key: k, value: None })
}

/// Every row that satisfies the predicates has a key.
pub open spec fn all_keyed<K: PkCodec>(
    codec: K,
    cols: Seq<(usize, String)>,
    rows: Seq<Seq<ScalarModel>>,
    ps: Seq<PredicateModel>,
) -> bool {
    forall|i: int|
        0 <= i < rows.len() && row_satisfies(#[trigger] rows[i], ps) ==> key_fault(
            codec,
            rows[i],
            cols,
            cols.len(),
        ) is None
}

/// The error tells of the first matching row without a key.
pub open spec fn is_first_key_error<K: PkCodec>(
    e: EngineError,
    codec: K,
    table: Seq<char>,
    cols: Seq<(usize, String)>,
    rows: Seq<Seq<ScalarModel>>,
    ps: Seq<PredicateModel>,
) -> bool {
    exists|i: int|
        0 <= i < rows.len() && row_satisfies(#[trigger] rows[i], ps) && (key_fault(
            codec,
            rows[i],
            cols,
            cols.len(),
        ) matches Some(f) && is_key_fault(e, f, table, cols)) && all_keyed(
            codec,
            cols,
            rows.take(i),
            ps,
        )
}

/// Turns the rows that satisfy every predicate into deletes. Without such a
/// row there is nothing to do, which is an error.
pub fn deletes_for_rows<K: PkCodec>(
    codec: &K,
    table: &str,
    batches: &[ColumnBatch],
    pk_columns: &[(usize, String)],
    predicates: &[ColumnPredicate],
) -> (r: Result<Vec<Mutation>>)
    requires
        forall|b: int| 0 <= b < batches@.len() ==> (#[trigger] batches@[b]).wf(),
    ensures
        ({
            let rows = rows_of_batches(batches@);
            let cols = pk_columns@;
            let ps = predicate_models(predicates@);
            let keys = matching_keys(*codec, table@, cols, rows, ps);
            if !all_keyed(*codec, cols, rows, ps) {
                r matches Err(e) && is_first_key_error(e, *codec, table@, cols, rows, ps)
            } else if keys.len() == 0 {
                r == Err::<Vec<Mutation>, EngineError>(EngineError::EmptyBatch)
            } else {
                r matches Ok(ms) && mutation_models(ms@) == deletes_of(keys)
            }
        }),
{
    let ghost bs = batches@;
    let ghost cols = pk_columns@;
    let ghost ps = predicate_models(predicates@);
    let ghost all = rows_of_batches(bs);
    let mut out: Vec<Mutation> = Vec::new();
    let mut b: usize = 0;
    proof {
        assert(bs.take(0) =~= Seq::<ColumnBatch>::empty());
        assert(mutation_models(out@) =~= deletes_of(Seq::empty()));
    }
    while b < batches.len()
        invariant
            b <= batches@.len(),
            bs == batches@,
            cols == pk_columns@,
            ps == predicate_models(predicates@),
            all == rows_of_batches(bs),
            forall|c: int| 0 <= c < batches@.len() ==> (#[trigger] batches@[c]).wf(),
            mutation_models(out@) == deletes_of(
                matching_keys(*codec, table@, cols, rows_of_batches(bs.take(b as int)), ps),
            ),
            all_keyed(*codec, cols, rows_of_batches(bs.take(b as int)), ps),
        decreases batches@.len() - b,
    {
        let batch = &batches[b];
        let ghost head = rows_of_batches(bs.take(b as int));
        let mut row: usize = 0;
        assert(head + first_rows_of(*batch, 0) =~= head);
        while row < batch.num_rows
            invariant
                b < batches@.len(),
                bs == batches@,
                *batch == bs[b as int],
                batch.wf(),
                cols == pk_columns@,
                ps == predicate_models(predicates@),
                all == rows_of_batches(bs),
                head == rows_of_batches(bs.take(b as int)),
                row <= batch.num_rows,
                mutation_models(out@) == deletes_of(
                    matching_keys(
                        *codec,
                        table@,
                        cols,
                        head + first_rows_of(*batch, row as int),
                        ps,
                    ),
                ),
                all_keyed(*codec, cols, head + first_rows_of(*batch, row as int), ps),
            decreases batch.num_rows - row,
        {
            let ghost seen = head + first_rows_of(*batch, row as int);
            let ghost cells = batch.row(row as int);
            let ghost next = head + first_rows_of(*batch, row + 1);
            proof {
                assert(next =~= seen.push(cells));
                assert(next.drop_last() =~= seen);
                lemma_rows_of_prefix(bs, b as int, row + 1);
                assert(all.take(next.len() as int) == next);
                assert(all[seen.len() as int] == next[seen.len() as int]);
                assert(all.take(seen.len() as int) =~= seen);
            }
            let scalars = batch_row(batch, row);
            if row_matches(scalars.as_slice(), predicates) {
                let key = match build_pk_key_from_scalars(
                    codec,
                    table,
                    pk_columns,
                    scalars.as_slice(),
                ) {
                    Ok(k) => k,
                    Err(e) => {
                        proof {
                            assert(row_satisfies(all[seen.len() as int], ps));
                            assert(is_first_key_error(e, *codec, table@, cols, all, ps));
                        }
                        return Err(e);
                    },
                };
                let ghost before = out@;
                out.push(Mutation::Delete { key });
                proof {
                    let keys = matching_keys(*codec, table@, cols, seen, ps);
                    assert(mutation_models(out@) =~= mutation_models(before).push(
                        MutationModel { key: bytes_view(key), value: None },
                    ));
                    assert(deletes_of(keys.push(bytes_view(key))) =~= deletes_of(keys).push(
                        MutationModel { key: bytes_view(key), value: None },
                    ));
                }
            }
            proof {
                assert forall|i: int|
                    0 <= i < next.len() && row_satisfies(#[trigger] next[i], ps) implies key_fault(
                    *codec,
                    next[i],
                    cols,
                    cols.len(),
                ) is None by {
                    if i < seen.len() {
                        assert(next[i] == seen[i]);
                    }
                }
            }
            row += 1;
        }
        proof {
            assert(bs.take(b + 1).drop_last() =~= bs.take(b as int));
            assert(bs.take(b + 1).last() == *batch);
        }
        b += 1;
    }
    proof {
        assert(bs.take(b as int) =~= bs);
        assert(mutation_models(out@).len() == out@.len());
    }
    if out.len() == 0 {
        return Err(EngineError::EmptyBatch);
    }
    Ok(out)
}

/// Turns the newest visible version of a key into a delete of it. A key that
/// is not there, or is deleted already, is an error.
pub fn delete_for_key(found: Option<VersionedValue>, key: Bytes) -> (r: Result<Vec<Mutation>>)
    ensures
        match found {
            Some(v) if v.value is Some => r matches Ok(ms) && mutation_models(ms@) == deletes_of(
                seq![bytes_view(key)],
            ),
            _ => r == Err::<Vec<Mutation>, EngineError>(EngineError::EmptyBatch),
        },
{
    let live = match found {
        Some(v) => v.value.is_some(),
        None => false,
    };
    if !live {
        return Err(EngineError::EmptyBatch);
    }
    let mut out: Vec<Mutation> = Vec::new();
    out.push(Mutation::Delete { key });
    assert(mutation_models(out@) =~= deletes_of(seq![bytes_view(key)]));
    Ok(out)
}

} // verus!
