//! What inserting and deleting rows comes down to.

use crate::buf::{bytes_view, lex_lt, sorted_keys};
use crate::column_predicate::{
    column_of, predicate_models, row_satisfies, satisfies, ColumnPredicate, PredicateModel,
};
use crate::dml::{
    all_keyed, deletes_for_rows, deletes_of, first_rows_of, matching_keys, puts_for_rows, puts_of,
    row_fits, row_key, rows_of_batches, stored_rows,
};
use crate::error::{EngineError, Result};
use crate::memtable_laws::lemma_listing_exists;
use crate::mutation::{mutation_models, Mutation};
use crate::pk::{
    are_key_columns, eq_literal, fixed_part, fixed_parts, fixes_key, is_first_named, key_fault,
    key_parts, PkCodec,
};
use crate::row_codec::{row_bytes, storable};
use crate::scalar::ScalarModel;
use crate::schema::{ColumnBatch, FieldModel};
use vstd::prelude::*;

verus! {

// ── Rows ──────────────────────────────────────────────────────────────────

/// Row `i` of a batch has every addressed column, and its value there satisfies
/// the predicate, for each one of the predicates.
pub open spec fn passes_all(b: ColumnBatch, i: int, ps: Seq<ColumnPredicate>) -> bool {
    forall|j: int|
        0 <= j < ps.len() ==> {
            let c = column_of((#[trigger] ps[j])@) as int;
            c < b.columns@.len() && satisfies(b.columns@[c]@[i]@, ps[j]@)
        }
}

/// Row `i` of batch `b` is there.
pub open spec fn is_row(bs: Seq<ColumnBatch>, b: int, i: int) -> bool {
    0 <= b < bs.len() && 0 <= i < bs[b].num_rows
}

proof fn lemma_passes(b: ColumnBatch, i: int, ps: Seq<ColumnPredicate>)
    requires
        b.wf(),
        0 <= i < b.num_rows,
    ensures
        passes_all(b, i, ps) <==> row_satisfies(b.row(i), predicate_models(ps)),
{
    let ms = predicate_models(ps);
    let cells = b.row(i);
    assert forall|c: int| 0 <= c < b.columns@.len() implies #[trigger] cells[c]
        == b.columns@[c]@[i]@ by {
        assert(b.columns@[c]@.len() == b.num_rows);
    }
    if passes_all(b, i, ps) {
        assert forall|j: int| 0 <= j < ms.len() implies {
            let c = column_of(#[trigger] ms[j]) as int;
            c < cells.len() && satisfies(cells[c], ms[j])
        } by {
            assert(ms[j] == ps[j]@);
            let c = column_of(ps[j]@) as int;
            assert(cells[c] == b.columns@[c]@[i]@);
        }
    }
    if row_satisfies(cells, ms) {
        assert forall|j: int| 0 <= j < ps.len() implies {
            let c = column_of((#[trigger] ps[j])@) as int;
            c < b.columns@.len() && satisfies(b.columns@[c]@[i]@, ps[j]@)
        } by {
            assert(ms[j] == ps[j]@);
            let c = column_of(ms[j]) as int;
            assert(cells[c] == b.columns@[c]@[i]@);
        }
    }
}

/// The rows of batches are the rows of the first batch from top to bottom, then
/// those of the next: each holds the values of all columns at its place.
pub proof fn law_batches_are_read_in_order(
    a: Seq<ColumnBatch>,
    b: Seq<ColumnBatch>,
    one: ColumnBatch,
    i: int,
    c: int,
)
    ensures
        rows_of_batches(a + b) == rows_of_batches(a) + rows_of_batches(b),
        rows_of_batches(Seq::empty()).len() == 0,
        rows_of_batches(seq![one]).len() == one.num_rows,
        one.wf() && 0 <= i < one.num_rows && 0 <= c < one.columns@.len() ==> rows_of_batches(
            seq![one],
        )[i].len() == one.columns@.len() && rows_of_batches(seq![one])[i][c]
            == one.columns@[c]@[i]@,
    decreases b.len(),
{
    if b.len() == 0 {
        assert(a + b =~= a);
        assert(rows_of_batches(a) + rows_of_batches(b) =~= rows_of_batches(a));
    } else {
        assert((a + b).drop_last() =~= a + b.drop_last());
        law_batches_are_read_in_order(a, b.drop_last(), one, i, c);
        assert(rows_of_batches(a + b) =~= rows_of_batches(a) + rows_of_batches(b));
    }
    assert(seq![one].drop_last() =~= Seq::<ColumnBatch>::empty());
    assert(rows_of_batches(Seq::<ColumnBatch>::empty()).len() == 0);
    assert(rows_of_batches(seq![one]) =~= first_rows_of(one, one.num_rows as int));
    if one.wf() && 0 <= i < one.num_rows && 0 <= c < one.columns@.len() {
        assert(one.columns@[c]@.len() == one.num_rows);
    }
}

proof fn lemma_place_of_row(bs: Seq<ColumnBatch>, r: int) -> (p: (int, int))
    requires
        0 <= r < rows_of_batches(bs).len(),
    ensures
        is_row(bs, p.0, p.1),
        rows_of_batches(bs)[r] == bs[p.0].row(p.1),
    decreases bs.len(),
{
    let init = bs.drop_last();
    let front = rows_of_batches(init);
    if r < front.len() {
        lemma_place_of_row(init, r)
    } else {
        (bs.len() - 1, r - front.len())
    }
}

proof fn lemma_row_at_place(bs: Seq<ColumnBatch>, b: int, i: int) -> (r: int)
    requires
        is_row(bs, b, i),
    ensures
        0 <= r < rows_of_batches(bs).len(),
        rows_of_batches(bs)[r] == bs[b].row(i),
    decreases bs.len(),
{
    let init = bs.drop_last();
    let front = rows_of_batches(init);
    if b < bs.len() - 1 {
        lemma_row_at_place(init, b, i)
    } else {
        front.len() + i
    }
}

// ── Deletes ───────────────────────────────────────────────────────────────

/// The keys to delete are those of the rows that satisfy the predicates, one
/// for each such row in the order of the rows.
pub proof fn law_matching_keys_are_of_matching_rows<K: PkCodec>(
    codec: K,
    table: Seq<char>,
    cols: Seq<(usize, String)>,
    rows: Seq<Seq<ScalarModel>>,
    more: Seq<Seq<ScalarModel>>,
    one: Seq<ScalarModel>,
    ps: Seq<PredicateModel>,
    k: Seq<u8>,
)
    ensures
        ({
            let keys = matching_keys(codec, table, cols, rows, ps);
            &&& keys.contains(k) <==> exists|i: int|
                0 <= i < rows.len() && row_satisfies(#[trigger] rows[i], ps) && k == row_key(
                    codec,
                    table,
                    cols,
                    rows[i],
                )
            &&& matching_keys(codec, table, cols, rows + more, ps) == keys + matching_keys(
                codec,
                table,
                cols,
                more,
                ps,
            )
            &&& matching_keys(codec, table, cols, seq![one], ps) == if row_satisfies(one, ps) {
                seq![row_key(codec, table, cols, one)]
            } else {
                Seq::empty()
            }
        }),
    decreases rows.len() + more.len(),
{
    let keys = matching_keys(codec, table, cols, rows, ps);
    if rows.len() > 0 {
        let init = rows.drop_last();
        law_matching_keys_are_of_matching_rows(codec, table, cols, init, Seq::empty(), one, ps, k);
        let front = matching_keys(codec, table, cols, init, ps);
        let last = rows.len() - 1;
        if keys.contains(k) {
            let j = choose|j: int| 0 <= j < keys.len() && keys[j] == k;
            if j < front.len() {
                assert(front[j] == k);
                let i = choose|i: int|
                    0 <= i < init.len() && row_satisfies(#[trigger] init[i], ps) && k == row_key(
                        codec,
                        table,
                        cols,
                        init[i],
                    );
                assert(rows[i] == init[i]);
            } else {
                assert(row_satisfies(rows[last], ps));
            }
        }
        if exists|i: int|
            0 <= i < rows.len() && row_satisfies(#[trigger] rows[i], ps) && k == row_key(
                codec,
                table,
                cols,
                rows[i],
            ) {
            let i = choose|i: int|
                0 <= i < rows.len() && row_satisfies(#[trigger] rows[i], ps) && k == row_key(
                    codec,
                    table,
                    cols,
                    rows[i],
                );
            if i < last {
                assert(init[i] == rows[i]);
                assert(front.contains(k));
                let j = choose|j: int| 0 <= j < front.len() && front[j] == k;
                assert(keys[j] == k);
            } else {
                assert(keys[keys.len() - 1] == k);
            }
        }
    }
    if more.len() == 0 {
        assert(rows + more =~= rows);
        assert(keys + matching_keys(codec, table, cols, more, ps) =~= keys);
    } else {
        assert((rows + more).drop_last() =~= rows + more.drop_last());
        law_matching_keys_are_of_matching_rows(
            codec,
            table,
            cols,
            rows,
            more.drop_last(),
            one,
            ps,
            k,
        );
        assert(matching_keys(codec, table, cols, rows + more, ps) =~= keys + matching_keys(
            codec,
            table,
            cols,
            more,
            ps,
        ));
    }
    assert(seq![one].drop_last() =~= Seq::<Seq<ScalarModel>>::empty());
    assert(matching_keys(codec, table, cols, Seq::<Seq<ScalarModel>>::empty(), ps).len() == 0);
    assert(matching_keys(codec, table, cols, seq![one], ps) =~= if row_satisfies(one, ps) {
        seq![row_key(codec, table, cols, one)]
    } else {
        Seq::empty()
    });
}

proof fn lemma_keys_to_delete<K: PkCodec>(
    codec: K,
    table: Seq<char>,
    bs: Seq<ColumnBatch>,
    cols: Seq<(usize, String)>,
    predicates: Seq<ColumnPredicate>,
)
    requires
        forall|b: int| 0 <= b < bs.len() ==> (#[trigger] bs[b]).wf(),
    ensures
        ({
            let rows = rows_of_batches(bs);
            let ps = predicate_models(predicates);
            let keys = matching_keys(codec, table, cols, rows, ps);
            &&& forall|k: Seq<u8>|
                keys.contains(k) <==> #[trigger] is_key_to_delete(
                    codec,
                    table,
                    bs,
                    cols,
                    predicates,
                    k,
                )
            &&& all_keyed(codec, cols, rows, ps) <==> forall|b: int, i: int| #[trigger]
                is_row(bs, b, i) && passes_all(bs[b], i, predicates) ==> key_fault(
                    codec,
                    bs[b].row(i),
                    cols,
                    cols.len(),
                ) is None
        }),
{
    let ps = predicate_models(predicates);
    let rows = rows_of_batches(bs);
    let keys = matching_keys(codec, table, cols, rows, ps);
    assert forall|b: int, i: int| #[trigger] is_row(bs, b, i) implies (passes_all(
        bs[b],
        i,
        predicates,
    ) <==> row_satisfies(bs[b].row(i), ps)) by {
        lemma_passes(bs[b], i, predicates);
    }
    assert forall|k: Seq<u8>| keys.contains(k) <==> #[trigger] is_key_to_delete(
        codec,
        table,
        bs,
        cols,
        predicates,
        k,
    ) by {
        law_matching_keys_are_of_matching_rows(
            codec,
            table,
            cols,
            rows,
            Seq::empty(),
            Seq::empty(),
            ps,
            k,
        );
        if keys.contains(k) {
            let n = choose|n: int|
                0 <= n < rows.len() && row_satisfies(#[trigger] rows[n], ps) && k == row_key(
                    codec,
                    table,
                    cols,
                    rows[n],
                );
            let (b, i) = lemma_place_of_row(bs, n);
            assert(is_row(bs, b, i) && passes_all(bs[b], i, predicates));
        }
        if is_key_to_delete(codec, table, bs, cols, predicates, k) {
            let (b, i) = choose|b: int, i: int| #[trigger]
                is_row(bs, b, i) && passes_all(bs[b], i, predicates) && k == row_key(
                    codec,
                    table,
                    cols,
                    bs[b].row(i),
                );
            let n = lemma_row_at_place(bs, b, i);
            assert(row_satisfies(rows[n], ps));
        }
    }
    if all_keyed(codec, cols, rows, ps) {
        assert forall|b: int, i: int| #[trigger] is_row(bs, b, i) && passes_all(
            bs[b],
            i,
            predicates,
        ) implies key_fault(codec, bs[b].row(i), cols, cols.len()) is None by {
            let n = lemma_row_at_place(bs, b, i);
            assert(row_satisfies(rows[n], ps));
        }
    } else {
        let n = choose|n: int|
            0 <= n < rows.len() && row_satisfies(#[trigger] rows[n], ps) && key_fault(
                codec,
                rows[n],
                cols,
                cols.len(),
            ) is Some;
        let (b, i) = lemma_place_of_row(bs, n);
        assert(is_row(bs, b, i) && passes_all(bs[b], i, predicates));
    }
}

/// Deleting rows by predicates deletes the key of every row that satisfies all
/// of them, and no other key. Where no row does there is nothing to delete, which
/// is an error; so is a row to delete that has no key.
pub proof fn law_rows_that_pass_are_deleted<K: PkCodec>(
    codec: &K,
    table: &str,
    batches: &[ColumnBatch],
    cols: &[(usize, String)],
    predicates: &[ColumnPredicate],
    r: Result<Vec<Mutation>>,
)
    requires
        call_ensures(deletes_for_rows::<K>, (codec, table, batches, cols, predicates), r),
        forall|b: int| 0 <= b < batches@.len() ==> (#[trigger] batches@[b]).wf(),
    ensures
        r matches Ok(ms) ==> forall|k: Seq<u8>|
            (exists|j: int|
                0 <= j < ms@.len() && (#[trigger] ms@[j] matches Mutation::Delete { key }
                    && bytes_view(key) == k)) <==> #[trigger] is_key_to_delete(
                *codec,
                table@,
                batches@,
                cols@,
                predicates@,
                k,
            ),
        r matches Ok(ms) ==> forall|j: int| 0 <= j < ms@.len() ==> #[trigger] ms@[j] is Delete,
        r is Ok ==> exists|k: Seq<u8>| #[trigger]
            is_key_to_delete(*codec, table@, batches@, cols@, predicates@, k),
        (exists|b: int, i: int| #[trigger]
            is_row(batches@, b, i) && passes_all(batches@[b], i, predicates@)) && (forall|b: int, i: int|
            #[trigger] is_row(batches@, b, i) && passes_all(batches@[b], i, predicates@)
                ==> key_fault(*codec, batches@[b].row(i), cols@, cols@.len()) is None) ==> r is Ok,
        (forall|b: int, i: int| #[trigger]
            is_row(batches@, b, i) ==> !passes_all(batches@[b], i, predicates@)) ==> r
            == Err::<Vec<Mutation>, EngineError>(EngineError::EmptyBatch),
{
    let bs = batches@;
    let ps = predicate_models(predicates@);
    let rows = rows_of_batches(bs);
    let keys = matching_keys(*codec, table@, cols@, rows, ps);
    lemma_keys_to_delete(*codec, table@, bs, cols@, predicates@);
    if r is Ok {
        let ms = r->Ok_0@;
        let ds = deletes_of(keys);
        assert(mutation_models(ms) == ds);
        assert forall|j: int| 0 <= j < ms.len() implies (#[trigger] ms[j])@ == ds[j] by {
            assert(mutation_models(ms)[j] == ms[j]@);
        }
        assert forall|k: Seq<u8>|
            (exists|j: int|
                0 <= j < ms.len() && (#[trigger] ms[j] matches Mutation::Delete { key }
                    && bytes_view(key) == k)) <==> #[trigger] is_key_to_delete(
                *codec,
                table@,
                bs,
                cols@,
                predicates@,
                k,
            ) by {
            if exists|j: int|
                0 <= j < ms.len() && (#[trigger] ms[j] matches Mutation::Delete { key }
                    && bytes_view(key) == k) {
                let j = choose|j: int|
                    0 <= j < ms.len() && (#[trigger] ms[j] matches Mutation::Delete { key }
                        && bytes_view(key) == k);
                assert(ms[j]@ == ds[j]);
                assert(keys[j] == k);
            }
            if keys.contains(k) {
                let j = choose|j: int| 0 <= j < keys.len() && keys[j] == k;
                assert(mutation_models(ms).len() == ms.len());
                assert(ms[j]@ == ds[j]);
            }
        }
        assert(keys.contains(keys[0]));
        assert(is_key_to_delete(*codec, table@, bs, cols@, predicates@, keys[0]));
    }
    if exists|b: int, i: int| #[trigger]
        is_row(bs, b, i) && passes_all(bs[b], i, predicates@) {
        let (b, i) = choose|b: int, i: int| #[trigger]
            is_row(bs, b, i) && passes_all(bs[b], i, predicates@);
        let k = row_key(*codec, table@, cols@, bs[b].row(i));
        assert(is_key_to_delete(*codec, table@, bs, cols@, predicates@, k));
        assert(keys.contains(k));
    } else {
        assert(keys.len() == 0) by {
            if keys.len() > 0 {
                assert(keys.contains(keys[0]));
                assert(is_key_to_delete(*codec, table@, bs, cols@, predicates@, keys[0]));
            }
        }
    }
}

/// Some row passes every predicate and has this key.
pub open spec fn is_key_to_delete<K: PkCodec>(
    codec: K,
    table: Seq<char>,
    bs: Seq<ColumnBatch>,
    cols: Seq<(usize, String)>,
    ps: Seq<ColumnPredicate>,
    k: Seq<u8>,
) -> bool {
    exists|b: int, i: int| #[trigger]
        is_row(bs, b, i) && passes_all(bs[b], i, ps) && k == row_key(codec, table, cols, bs[b].row(i))
}

/// A row has a key exactly where every key column is among its columns and holds
/// a value that can be encoded; the key is made of those encodings, in the order
/// of the key columns.
pub proof fn law_keys_are_made_of_the_key_columns<K: PkCodec>(
    codec: K,
    cells: Seq<ScalarModel>,
    cols: Seq<(usize, String)>,
    n: nat,
)
    requires
        n <= cols.len(),
    ensures
        key_fault(codec, cells, cols, n) is None <==> forall|i: int|
            0 <= i < n ==> (#[trigger] cols[i]).0 < cells.len() && codec.encoded(
                cells[cols[i].0 as int],
            ) is Some,
        key_parts(codec, cells, cols).len() == cols.len(),
        forall|i: int|
            0 <= i < cols.len() ==> #[trigger] key_parts(codec, cells, cols)[i] == codec.encoded(
                cells[cols[i].0 as int],
            )->0,
    decreases n,
{
    if n > 0 {
        law_keys_are_made_of_the_key_columns(codec, cells, cols, (n - 1) as nat);
        if key_fault(codec, cells, cols, n) is Some {
            assert(cols[n - 1].0 >= cells.len() || codec.encoded(cells[cols[n - 1].0 as int]) is None
                || key_fault(codec, cells, cols, (n - 1) as nat) is Some);
        }
    }
}

// ── Deletes by key ────────────────────────────────────────────────────────

/// Place `j` holds the first equality on the column.
pub open spec fn is_first_eq(ps: Seq<PredicateModel>, col: usize, j: int) -> bool {
    &&& 0 <= j < ps.len()
    &&& ps[j] matches PredicateModel::Eq(c, _) && c == col
    &&& forall|i: int|
        0 <= i < j ==> !((#[trigger] ps[i]) matches PredicateModel::Eq(c, _) && c == col)
}

/// The literal that the predicates fix for a column is that of the first equality
/// on it; where there is none, no predicate is an equality on it.
pub proof fn law_fixed_literal_is_of_an_equality(ps: Seq<PredicateModel>, col: usize) -> (j: int)
    ensures
        eq_literal(ps, col) matches Some(v) ==> is_first_eq(ps, col, j) && ps[j]
            == PredicateModel::Eq(col, v),
        eq_literal(ps, col) is None ==> forall|i: int|
            0 <= i < ps.len() ==> !((#[trigger] ps[i]) matches PredicateModel::Eq(c, _) && c == col),
    decreases ps.len(),
{
    if ps.len() == 0 {
        0
    } else {
        let rest = ps.drop_first();
        let here = ps[0] matches PredicateModel::Eq(c, _) && c == col;
        let j = law_fixed_literal_is_of_an_equality(rest, col);
        if here {
            0
        } else {
            assert forall|i: int| 0 <= i < ps.len() && (eq_literal(rest, col) is None || i < j
                + 1) implies !((#[trigger] ps[i]) matches PredicateModel::Eq(c, _) && c == col) by {
                if i > 0 {
                    assert(rest[i - 1] == ps[i]);
                }
            }
            j + 1
        }
    }
}

spec fn first_eq(ps: Seq<PredicateModel>, col: usize) -> int {
    choose|j: int| is_first_eq(ps, col, j)
}

/// Where predicates fix the whole key, none of them is passed over: each is an
/// equality on a key column, and its literal makes that part of the key.
pub proof fn law_fixed_key_uses_every_predicate<K: PkCodec>(
    codec: K,
    ps: Seq<PredicateModel>,
    names: Seq<String>,
    fields: Seq<FieldModel>,
    cols: Seq<(usize, String)>,
)
    requires
        fixes_key(codec, ps, names, fields),
        are_key_columns(cols, fields, names),
        forall|a: int, b: int|
            0 <= a < b < cols.len() ==> (#[trigger] cols[a]).0 != (#[trigger] cols[b]).0,
    ensures
        ps.len() == cols.len(),
        fixed_parts(codec, ps, names, fields).len() == cols.len(),
        forall|j: int|
            0 <= j < ps.len() ==> (#[trigger] ps[j] matches PredicateModel::Eq(c, v) && exists|i: int|
                0 <= i < cols.len() && (#[trigger] cols[i]).0 == c && codec.encoded(v) == Some(
                    fixed_parts(codec, ps, names, fields)[i],
                )),
{
    let n = cols.len();
    let parts = fixed_parts(codec, ps, names, fields);
    let place = Seq::new(n, |i: int| first_eq(ps, cols[i].0));
    assert forall|i: int| 0 <= i < n implies 0 <= #[trigger] place[i] < n && (ps[place[i]] matches
        PredicateModel::Eq(c, v) && c == cols[i].0 && codec.encoded(v) == Some(parts[i])) by {
        let c = cols[i].0;
        assert(cols[i].1@ == names[i]@);
        assert(is_first_named(fields, names[i]@, c));
        let chosen = choose|k: usize| is_first_named(fields, names[i]@, k);
        assert(chosen == c) by {
            if chosen < c {
                assert(fields[chosen as int].name != names[i]@);
            } else if c < chosen {
                assert(fields[c as int].name != names[i]@);
            }
        }
        assert(fixed_part(codec, ps, fields, names[i]@) is Some);
        assert(parts[i] == fixed_part(codec, ps, fields, names[i]@)->0);
        let j = law_fixed_literal_is_of_an_equality(ps, c);
        let p = first_eq(ps, c);
        assert(is_first_eq(ps, c, j));
        assert(is_first_eq(ps, c, p));
        assert(!(p < j) && !(j < p));
    }
    assert(place.no_duplicates()) by {
        assert forall|a: int, b: int| 0 <= a < n && 0 <= b < n && a != b implies place[a]
            != place[b] by {
            assert(0 <= place[a] < n && 0 <= place[b] < n);
            if a < b {
                assert(cols[a].0 != cols[b].0);
            } else {
                assert(cols[b].0 != cols[a].0);
            }
        }
    }
    place.unique_seq_to_set();
    vstd::set_lib::lemma_int_range(0, n as int);
    let all = vstd::set_lib::set_int_range(0, n as int);
    assert(place.to_set().subset_of(all)) by {
        assert forall|j: int| place.to_set().contains(j) implies all.contains(j) by {
            let i = choose|i: int| 0 <= i < place.len() && place[i] == j;
            assert(0 <= place[i] < n);
        }
    }
    vstd::set_lib::lemma_subset_equality(place.to_set(), all);
    assert forall|j: int| 0 <= j < ps.len() implies (#[trigger] ps[j] matches PredicateModel::Eq(c, v)
        && exists|i: int|
        0 <= i < cols.len() && (#[trigger] cols[i]).0 == c && codec.encoded(v) == Some(parts[i])) by {
        assert(all.contains(j));
        assert(place.to_set().contains(j));
        let i = choose|i: int| 0 <= i < place.len() && place[i] == j;
        assert(0 <= place[i] < n);
        assert(cols[i].0 == cols[i].0);
    }
}

// ── Puts ──────────────────────────────────────────────────────────────────

/// Row `i` is the last one with its key.
pub open spec fn is_last_of_key<K: PkCodec>(
    codec: K,
    table: Seq<char>,
    cols: Seq<(usize, String)>,
    rows: Seq<Seq<ScalarModel>>,
    i: int,
) -> bool {
    &&& 0 <= i < rows.len()
    &&& forall|j: int|
        i < j < rows.len() ==> row_key(codec, table, cols, #[trigger] rows[j]) != row_key(
            codec,
            table,
            cols,
            rows[i],
        )
}

/// Of the rows with one key the last is stored, under that key and as the bytes
/// of all its values; every key of a row is stored.
pub proof fn law_last_row_of_a_key_is_stored<K: PkCodec>(
    codec: K,
    table: Seq<char>,
    cols: Seq<(usize, String)>,
    rows: Seq<Seq<ScalarModel>>,
    k: Seq<u8>,
    v: Seq<u8>,
)
    ensures
        ({
            let m = stored_rows(codec, table, cols, rows);
            &&& m.contains_key(k) && m[k] == v <==> exists|i: int| #[trigger]
                is_last_of_key(codec, table, cols, rows, i) && k == row_key(
                    codec,
                    table,
                    cols,
                    rows[i],
                ) && v == row_bytes(rows[i])
            &&& m.contains_key(k) <==> exists|i: int|
                0 <= i < rows.len() && k == row_key(codec, table, cols, #[trigger] rows[i])
            &&& m.dom().finite()
        }),
    decreases rows.len(),
{
    let m = stored_rows(codec, table, cols, rows);
    if rows.len() > 0 {
        let init = rows.drop_last();
        let n = rows.len() - 1;
        let last = row_key(codec, table, cols, rows[n]);
        law_last_row_of_a_key_is_stored(codec, table, cols, init, k, v);
        assert(is_last_of_key(codec, table, cols, rows, n));
        assert(k != last ==> forall|i: int|
            0 <= i < n && row_key(codec, table, cols, init[i]) == k && #[trigger] is_last_of_key(
                codec,
                table,
                cols,
                init,
                i,
            ) ==> is_last_of_key(codec, table, cols, rows, i)) by {
            assert forall|i: int|
                k != last && 0 <= i < n && row_key(codec, table, cols, init[i]) == k
                    && #[trigger] is_last_of_key(codec, table, cols, init, i) implies is_last_of_key(
                codec,
                table,
                cols,
                rows,
                i,
            ) by {
                assert forall|j: int| i < j < rows.len() implies row_key(
                    codec,
                    table,
                    cols,
                    #[trigger] rows[j],
                ) != row_key(codec, table, cols, rows[i]) by {
                    if j < n {
                        assert(init[j] == rows[j]);
                    }
                }
            }
        }
        if exists|i: int| #[trigger]
            is_last_of_key(codec, table, cols, rows, i) && k == row_key(codec, table, cols, rows[i])
                && v == row_bytes(rows[i]) {
            let i = choose|i: int| #[trigger]
                is_last_of_key(codec, table, cols, rows, i) && k == row_key(
                    codec,
                    table,
                    cols,
                    rows[i],
                ) && v == row_bytes(rows[i]);
            if i < n {
                assert(row_key(codec, table, cols, rows[n]) != k);
                assert(init[i] == rows[i]);
                assert forall|j: int| i < j < init.len() implies row_key(
                    codec,
                    table,
                    cols,
                    #[trigger] init[j],
                ) != row_key(codec, table, cols, init[i]) by {
                    assert(init[j] == rows[j]);
                }
                assert(is_last_of_key(codec, table, cols, init, i));
            }
        }
        if m.contains_key(k) && m[k] == v && k != last {
            let i = choose|i: int| #[trigger]
                is_last_of_key(codec, table, cols, init, i) && k == row_key(
                    codec,
                    table,
                    cols,
                    init[i],
                ) && v == row_bytes(init[i]);
            assert(init[i] == rows[i]);
            assert(is_last_of_key(codec, table, cols, rows, i));
        }
        if m.contains_key(k) && k != last {
            let i = choose|i: int|
                0 <= i < init.len() && k == row_key(codec, table, cols, #[trigger] init[i]);
            assert(rows[i] == init[i]);
        }
        if exists|i: int|
            0 <= i < rows.len() && k == row_key(codec, table, cols, #[trigger] rows[i]) {
            let i = choose|i: int|
                0 <= i < rows.len() && k == row_key(codec, table, cols, #[trigger] rows[i]);
            if i < n {
                assert(init[i] == rows[i]);
            }
        }
    }
}

/// Ingesting rows puts of each key its last row, and nothing else: every row's key
/// is put once, in key order, as the bytes of all values of the row. It succeeds
/// exactly where every row has a key and every value can be stored.
pub proof fn law_last_row_of_each_key_is_put<K: PkCodec>(
    codec: &K,
    table: &str,
    batches: &[ColumnBatch],
    cols: &[(usize, String)],
    r: Result<Vec<Mutation>>,
)
    requires
        call_ensures(puts_for_rows::<K>, (codec, table, batches, cols), r),
    ensures
        ({
            let rows = rows_of_batches(batches@);
            &&& r is Ok <==> forall|i: int, c: int|
                #![trigger rows[i], rows[i][c]]
                0 <= i < rows.len() ==> key_fault(*codec, rows[i], cols@, cols@.len()) is None && (0
                    <= c < rows[i].len() ==> storable(rows[i][c]))
            &&& r matches Ok(ms) ==> {
                &&& forall|j: int| 0 <= j < ms@.len() ==> #[trigger] ms@[j] is Put
                &&& forall|i: int, j: int|
                    0 <= i < j < ms@.len() ==> lex_lt((#[trigger] ms@[i])@.key, (#[trigger] ms@[j])@.key)
                &&& forall|k: Seq<u8>, v: Seq<u8>|
                    (exists|j: int|
                        0 <= j < ms@.len() && (#[trigger] ms@[j] matches Mutation::Put { key, value }
                            && bytes_view(key) == k && bytes_view(value) == v)) <==> #[trigger]
                    is_row_to_put(*codec, table@, cols@, rows, k, v)
            }
        }),
{
    let rows = rows_of_batches(batches@);
    if forall|i: int, c: int|
        #![trigger rows[i], rows[i][c]]
        0 <= i < rows.len() ==> key_fault(*codec, rows[i], cols@, cols@.len()) is None && (0 <= c
            < rows[i].len() ==> storable(rows[i][c])) {
        assert forall|i: int| 0 <= i < rows.len() implies row_fits(
            *codec,
            cols@,
            #[trigger] rows[i],
        ) by {
            let first = rows[i][0];
            assert(key_fault(*codec, rows[i], cols@, cols@.len()) is None);
        }
    }
    if r is Ok {
        lemma_puts(r->Ok_0@, *codec, table@, cols@, rows);
    }
}

/// The mutations put of each key its last row, in key order, and nothing else.
pub open spec fn puts_last_rows<K: PkCodec>(
    ms: Seq<Mutation>,
    codec: K,
    table: Seq<char>,
    cols: Seq<(usize, String)>,
    rows: Seq<Seq<ScalarModel>>,
) -> bool {
    &&& forall|j: int| 0 <= j < ms.len() ==> #[trigger] ms[j] is Put
    &&& forall|i: int, j: int|
        0 <= i < j < ms.len() ==> lex_lt((#[trigger] ms[i])@.key, (#[trigger] ms[j])@.key)
    &&& forall|k: Seq<u8>, v: Seq<u8>|
        (exists|j: int|
            0 <= j < ms.len() && (#[trigger] ms[j] matches Mutation::Put { key, value }
                && bytes_view(key) == k && bytes_view(value) == v)) <==> #[trigger] is_row_to_put(
            codec,
            table,
            cols,
            rows,
            k,
            v,
        )
}

pub proof fn lemma_puts<K: PkCodec>(
    ms: Seq<Mutation>,
    codec: K,
    table: Seq<char>,
    cols: Seq<(usize, String)>,
    rows: Seq<Seq<ScalarModel>>,
)
    requires
        mutation_models(ms) == puts_of(stored_rows(codec, table, cols, rows)),
    ensures
        puts_last_rows(ms, codec, table, cols, rows),
{
    let m = stored_rows(codec, table, cols, rows);
    law_last_row_of_a_key_is_stored(codec, table, cols, rows, Seq::empty(), Seq::empty());
    lemma_listing_exists(m.dom());
    let ks = sorted_keys(m.dom());
    let want = puts_of(m);
    assert(ms.len() == ks.len()) by {
        assert(mutation_models(ms).len() == want.len());
    }
    assert forall|j: int| 0 <= j < ms.len() implies (#[trigger] ms[j])@.key == ks[j]
        && ms[j]@.value == Some(m[ks[j]]) && m.contains_key(ks[j]) && ms[j] is Put by {
        assert(mutation_models(ms)[j] == ms[j]@);
        assert(want[j].key == ks[j]);
        assert(m.dom().contains(ks[j]));
    }
    assert forall|k: Seq<u8>, v: Seq<u8>|
        (exists|j: int|
            0 <= j < ms.len() && (#[trigger] ms[j] matches Mutation::Put { key, value }
                && bytes_view(key) == k && bytes_view(value) == v)) <==> #[trigger] is_row_to_put(
            codec,
            table,
            cols,
            rows,
            k,
            v,
        ) by {
        law_last_row_of_a_key_is_stored(codec, table, cols, rows, k, v);
        if m.contains_key(k) && m[k] == v {
            assert(m.dom().contains(k));
            let j = choose|j: int| 0 <= j < ks.len() && ks[j] == k;
            assert(ms[j]@.key == k);
        }
    }
}

/// The row that is the last of its key has this key and these bytes.
pub open spec fn is_row_to_put<K: PkCodec>(
    codec: K,
    table: Seq<char>,
    cols: Seq<(usize, String)>,
    rows: Seq<Seq<ScalarModel>>,
    k: Seq<u8>,
    v: Seq<u8>,
) -> bool {
    exists|i: int| #[trigger]
        is_last_of_key(codec, table, cols, rows, i) && k == row_key(codec, table, cols, rows[i]) && v
            == row_bytes(rows[i])
}

} // verus!
