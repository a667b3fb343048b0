//! Primary keys of table rows.

use crate::buf::bytes_view;
use crate::column_predicate::{predicate_models, ColumnPredicate, PredicateModel};
use crate::error::{EngineError, Result};
use crate::keys::{assemble_table_key, part_views, table_key, zero_free};
use crate::scalar::{scalar_models, sort_key, KeyModel, Payload, ScalarModel, ScalarValue, SortKey};
use crate::schema::{ColumnBatch, FieldModel, Schema};
use bytes::Bytes;
use vstd::prelude::*;

verus! {

// ── Encoding of key values ────────────────────────────────────────────────

/// What optional bytes say.
pub open spec fn opt_part(p: Option<Vec<u8>>) -> Option<Seq<u8>> {
    match p {
        Some(p) => Some(p@),
        None => None,
    }
}

/// Encodes primary-key values. A null has no encoding.
pub trait PkCodec {
    /// The encoding of a value.
    spec fn encoded(&self, m: ScalarModel) -> Option<Seq<u8>>;

    /// Encodes a value; none for a null.
    fn encode_pk_value(&self, value: &ScalarValue) -> (r: Option<Vec<u8>>)
        ensures
            opt_part(r) == self.encoded(value@),
    ;
}

/// The last `k` base-256 digits of `u`, highest first.
pub open spec fn big_endian(u: int, k: nat) -> Seq<u8>
    decreases k,
{
    if k == 0 {
        Seq::empty()
    } else {
        big_endian(u / 256, (k - 1) as nat).push((u % 256) as u8)
    }
}

/// A number in sixteen bytes whose dictionary order is the numbers' order.
pub open spec fn number_bytes(n: int) -> Seq<u8> {
    big_endian(n + 0x8000_0000_0000_0000_0000_0000_0000_0000, 16)
}

/// The bytes without zeros: a zero becomes `01 01` and a one `01 02`.
pub open spec fn escaped(s: Seq<u8>) -> Seq<u8>
    decreases s.len(),
{
    if s.len() == 0 {
        Seq::empty()
    } else if s.last() == 0 {
        escaped(s.drop_last()).push(1).push(1)
    } else if s.last() == 1 {
        escaped(s.drop_last()).push(1).push(2)
    } else {
        escaped(s.drop_last()).push(s.last())
    }
}

/// Escaped bytes hold no zero byte.
pub proof fn law_escaped_is_zero_free(s: Seq<u8>)
    ensures
        zero_free(escaped(s)),
    decreases s.len(),
{
    if s.len() > 0 {
        law_escaped_is_zero_free(s.drop_last());
    }
}

/// The encoding of a comparison key.
pub open spec fn key_bytes(k: KeyModel) -> Seq<u8> {
    match k {
        KeyModel::Num(n) => number_bytes(n),
        KeyModel::Raw(b) | KeyModel::Token(b) => escaped(b),
        KeyModel::Fields(x, y, z) => number_bytes(x) + number_bytes(y) + number_bytes(z),
    }
}

/// Encodes values by what they are compared by: numbers in a fixed width,
/// texts and bytes escaped.
#[derive(Debug, Clone, Copy, Default, PartialEq, Eq, Structural)]
pub struct OrderedPkCodec;

fn push_big_endian(out: &mut Vec<u8>, u: u128, k: u32)
    ensures
        final(out)@ == old(out)@ + big_endian(u as int, k as nat),
    decreases k,
{
    if k > 0 {
        push_big_endian(out, u / 256, k - 1);
        out.push((u % 256) as u8);
    }
    assert(out@ =~= old(out)@ + big_endian(u as int, k as nat));
}

fn push_number(out: &mut Vec<u8>, n: i128)
    ensures
        final(out)@ == old(out)@ + number_bytes(n as int),
{
    let u: u128 = if n >= 0 {
        n as u128 + 0x8000_0000_0000_0000_0000_0000_0000_0000
    } else {
        let up: i128 = n + 0x7FFF_FFFF_FFFF_FFFF_FFFF_FFFF_FFFF_FFFF;
        if up >= 0 {
            up as u128 + 1
        } else {
            0
        }
    };
    push_big_endian(out, u, 16);
}

fn push_escaped(out: &mut Vec<u8>, s: &[u8])
    ensures
        final(out)@ == old(out)@ + escaped(s@),
{
    let mut i: usize = 0;
    assert(out@ =~= old(out)@ + escaped(s@.take(0)));
    while i < s.len()
        invariant
            i <= s@.len(),
            out@ == old(out)@ + escaped(s@.take(i as int)),
        decreases s@.len() - i,
    {
        let b: u8 = s[i];
        assert(s@.take(i + 1).drop_last() =~= s@.take(i as int));
        if b == 0 {
            out.push(1);
            out.push(1);
        } else if b == 1 {
            out.push(1);
            out.push(2);
        } else {
            out.push(b);
        }
        assert(out@ =~= old(out)@ + escaped(s@.take(i + 1)));
        i += 1;
    }
    assert(s@.take(i as int) =~= s@);
}

impl PkCodec for OrderedPkCodec {
    open spec fn encoded(&self, m: ScalarModel) -> Option<Seq<u8>> {
        match m.payload {
            None => None,
            Some(Payload::Other(_)) => None,
            Some(p) => Some(key_bytes(sort_key(m.ty, p))),
        }
    }

    fn encode_pk_value(&self, value: &ScalarValue) -> (r: Option<Vec<u8>>) {
        if let ScalarValue::Other(_) = value {
            return None;
        }
        let mut out: Vec<u8> = Vec::new();
        match value.key() {
            None => {
                return None;
            },
            Some(SortKey::Num(n)) => {
                push_number(&mut out, n);
            },
            Some(SortKey::Raw(b) | SortKey::Token(b)) => {
                push_escaped(&mut out, b);
            },
            Some(SortKey::Fields(x, y, z)) => {
                push_number(&mut out, x);
                push_number(&mut out, y);
                push_number(&mut out, z);
            },
        }
        assert(out@ =~= key_bytes(sort_key(value@.ty, value@.payload->0)));
        Some(out)
    }
}

// ── Key columns ───────────────────────────────────────────────────────────

/// The first column called `name` stands at place `i`.
pub open spec fn is_first_named(fields: Seq<FieldModel>, name: Seq<char>, i: usize) -> bool {
    &&& i < fields.len()
    &&& fields[i as int].name == name
    &&& forall|j: int| 0 <= j < i ==> (#[trigger] fields[j]).name != name
}

/// The schema has a column called `name`.
pub open spec fn has_named(fields: Seq<FieldModel>, name: Seq<char>) -> bool {
    exists|i: usize| is_first_named(fields, name, i)
}

/// The places of the key columns, in the order of their names.
pub open spec fn are_key_columns(
    cols: Seq<(usize, String)>,
    fields: Seq<FieldModel>,
    names: Seq<String>,
) -> bool {
    &&& cols.len() == names.len()
    &&& forall|i: int|
        0 <= i < cols.len() ==> (#[trigger] cols[i]).1@ == names[i]@ && is_first_named(
            fields,
            names[i]@,
            cols[i].0,
        )
}

fn find_key_columns(schema: &Schema, primary_key: &[String]) -> (r: Option<Vec<(usize, String)>>)
    ensures
        r matches Some(cols) ==> are_key_columns(cols@, schema@, primary_key@),
        r is None ==> exists|i: int|
            0 <= i < primary_key@.len() && !has_named(schema@, (#[trigger] primary_key@[i])@),
{
    let mut out: Vec<(usize, String)> = Vec::new();
    let mut i: usize = 0;
    while i < primary_key.len()
        invariant
            i <= primary_key@.len(),
            out@.len() == i,
            forall|j: int|
                0 <= j < i ==> (#[trigger] out@[j]).1@ == primary_key@[j]@ && is_first_named(
                    schema@,
                    primary_key@[j]@,
                    out@[j].0,
                ),
        decreases primary_key@.len() - i,
    {
        let name = primary_key[i].as_str();
        match schema.index_of(name) {
            Some(idx) => {
                out.push((idx, name.to_owned()));
            },
            None => {
                assert(!has_named(schema@, primary_key@[i as int]@));
                return None;
            },
        }
        i += 1;
    }
    Some(out)
}

/// Resolves the places of the primary-key columns in a batch.
pub fn resolve_pk_columns(batch: &ColumnBatch, primary_key: &[String]) -> (r: Result<
    Vec<(usize, String)>,
>)
    ensures
        r is Ok <==> forall|i: int|
            0 <= i < primary_key@.len() ==> has_named(batch.schema@, (#[trigger] primary_key@[i])@),
        r matches Ok(cols) ==> are_key_columns(cols@, batch.schema@, primary_key@),
        r matches Err(e) ==> e.is_corrupt(
            "resolve_pk_columns: primary key column not present in input batch",
        ),
{
    match find_key_columns(&batch.schema, primary_key) {
        Some(cols) => {
            assert forall|i: int| 0 <= i < primary_key@.len() implies has_named(
                batch.schema@,
                (#[trigger] primary_key@[i])@,
            ) by {
                assert(is_first_named(batch.schema@, primary_key@[i]@, cols@[i].0));
            }
            Ok(cols)
        },
        None => Err(
            EngineError::Corrupt("resolve_pk_columns: primary key column not present in input batch"),
        ),
    }
}

/// Resolves the places of the primary-key columns in a schema.
pub fn resolve_pk_columns_via_schema(schema: &Schema, primary_key: &[String]) -> (r: Result<
    Vec<(usize, String)>,
>)
    ensures
        r is Ok <==> forall|i: int|
            0 <= i < primary_key@.len() ==> has_named(schema@, (#[trigger] primary_key@[i])@),
        r matches Ok(cols) ==> are_key_columns(cols@, schema@, primary_key@),
        r matches Err(e) ==> e.is_corrupt(
            "resolve_pk_columns_via_schema: primary key column not present in schema",
        ),
{
    match find_key_columns(schema, primary_key) {
        Some(cols) => {
            assert forall|i: int| 0 <= i < primary_key@.len() implies has_named(
                schema@,
                (#[trigger] primary_key@[i])@,
            ) by {
                assert(is_first_named(schema@, primary_key@[i]@, cols@[i].0));
            }
            Ok(cols)
        },
        None => Err(
            EngineError::Corrupt(
                "resolve_pk_columns_via_schema: primary key column not present in schema",
            ),
        ),
    }
}

// ── Keys of rows ──────────────────────────────────────────────────────────

/// Why a row has no key.
pub enum KeyFault {
    /// A key column lies outside the row.
    OutOfRange,
    /// The value of the key column at that place of the key is null.
    NullAt(int),
}

/// The first thing that is wrong with the key of a row among its first `n` key
/// columns.
pub open spec fn key_fault<K: PkCodec>(
    codec: K,
    cells: Seq<ScalarModel>,
    cols: Seq<(usize, String)>,
    n: nat,
) -> Option<KeyFault>
    decreases n,
{
    if n == 0 {
        None
    } else {
        match key_fault(codec, cells, cols, (n - 1) as nat) {
            Some(f) => Some(f),
            None => {
                let (c, _) = cols[n - 1];
                if c >= cells.len() {
                    Some(KeyFault::OutOfRange)
                } else if codec.encoded(cells[c as int]) is None {
                    Some(KeyFault::NullAt(n - 1))
                } else {
                    None
                }
            },
        }
    }
}

/// The encoded key columns of a row.
pub open spec fn key_parts<K: PkCodec>(
    codec: K,
    cells: Seq<ScalarModel>,
    cols: Seq<(usize, String)>,
) -> Seq<Seq<u8>> {
    cols.map_values(|c: (usize, String)| codec.encoded(cells[c.0 as int])->0)
}

/// `e` is the error for a row without a key.
pub open spec fn is_key_fault(
    e: EngineError,
    f: KeyFault,
    table: Seq<char>,
    cols: Seq<(usize, String)>,
) -> bool {
    match f {
        KeyFault::OutOfRange => e.is_corrupt(
            "build_pk_key_from_scalars: primary-key column index out of range",
        ),
        KeyFault::NullAt(i) => e matches EngineError::NullPrimaryKey { table: t, column: c } && t@
            == table && c@ == cols[i].1@,
    }
}

proof fn lemma_fault_stays<K: PkCodec>(
    codec: K,
    cells: Seq<ScalarModel>,
    cols: Seq<(usize, String)>,
    n: nat,
    m: nat,
)
    requires
        n <= m,
        key_fault(codec, cells, cols, n) is Some,
    ensures
        key_fault(codec, cells, cols, m) == key_fault(codec, cells, cols, n),
    decreases m,
{
    if n < m {
        lemma_fault_stays(codec, cells, cols, n, (m - 1) as nat);
    }
}

/// Builds the storage key of a row from its values.
pub fn build_pk_key_from_scalars<K: PkCodec>(
    codec: &K,
    table: &str,
    pk_columns: &[(usize, String)],
    row_scalars: &[ScalarValue],
) -> (r: Result<Bytes>)
    ensures
        ({
            let cells = scalar_models(row_scalars@);
            match key_fault(*codec, cells, pk_columns@, pk_columns@.len()) {
                Some(f) => r matches Err(e) && is_key_fault(e, f, table@, pk_columns@),
                None => r matches Ok(key) && bytes_view(key) == table_key(
                    table@,
                    key_parts(*codec, cells, pk_columns@),
                ),
            }
        }),
{
    let ghost cells = scalar_models(row_scalars@);
    let ghost cols = pk_columns@;
    let mut parts: Vec<Vec<u8>> = Vec::new();
    let mut i: usize = 0;
    while i < pk_columns.len()
        invariant
            cells == scalar_models(row_scalars@),
            cols == pk_columns@,
            i <= cols.len(),
            parts@.len() == i,
            key_fault(*codec, cells, cols, i as nat) is None,
            forall|j: int|
                0 <= j < i ==> Some((#[trigger] parts@[j])@) == codec.encoded(
                    cells[cols[j].0 as int],
                ),
        decreases cols.len() - i,
    {
        let c: usize = pk_columns[i].0;
        if c >= row_scalars.len() {
            proof {
                assert(key_fault(*codec, cells, cols, (i + 1) as nat) == Some(KeyFault::OutOfRange));
                lemma_fault_stays(*codec, cells, cols, (i + 1) as nat, cols.len());
            }
            return Err(
                EngineError::Corrupt(
                    "build_pk_key_from_scalars: primary-key column index out of range",
                ),
            );
        }
        assert(cells[c as int] == row_scalars@[c as int]@);
        match codec.encode_pk_value(&row_scalars[c]) {
            Some(bytes) => {
                parts.push(bytes);
            },
            None => {
                proof {
                    assert(key_fault(*codec, cells, cols, (i + 1) as nat) == Some(
                        KeyFault::NullAt(i as int),
                    ));
                    lemma_fault_stays(*codec, cells, cols, (i + 1) as nat, cols.len());
                }
                return Err(
                    EngineError::NullPrimaryKey {
                        table: table.to_owned(),
                        column: pk_columns[i].1.as_str().to_owned(),
                    },
                );
            },
        }
        i += 1;
    }
    assert(part_views(parts@) =~= key_parts(*codec, cells, cols));
    Ok(assemble_table_key(table, parts.as_slice()))
}

/// Builds the storage key of a row of a batch.
pub fn build_pk_key<K: PkCodec>(
    codec: &K,
    table: &str,
    batch: &ColumnBatch,
    row: usize,
    pk_columns: &[(usize, String)],
) -> (r: Result<Bytes>)
    requires
        batch.wf(),
        row < batch.num_rows,
        forall|i: int|
            0 <= i < pk_columns@.len() ==> (#[trigger] pk_columns@[i]).0 < batch.schema@.len(),
    ensures
        match key_fault(*codec, batch.row(row as int), pk_columns@, pk_columns@.len()) {
            Some(f) => r matches Err(e) && is_key_fault(e, f, table@, pk_columns@),
            None => r matches Ok(key) && bytes_view(key) == table_key(
                table@,
                key_parts(*codec, batch.row(row as int), pk_columns@),
            ),
        },
{
    let cells = batch_row(batch, row);
    build_pk_key_from_scalars(codec, table, pk_columns, cells.as_slice())
}

/// Copies the values of one row of a batch.
pub fn batch_row(batch: &ColumnBatch, row: usize) -> (r: Vec<ScalarValue>)
    requires
        batch.wf(),
        row < batch.num_rows,
    ensures
        scalar_models(r@) == batch.row(row as int),
{
    let mut out: Vec<ScalarValue> = Vec::new();
    let mut c: usize = 0;
    while c < batch.columns.len()
        invariant
            batch.wf(),
            row < batch.num_rows,
            c <= batch.columns@.len(),
            out@.len() == c,
            forall|j: int| 0 <= j < c ==> (#[trigger] out@[j])@ == batch.row(row as int)[j],
        decreases batch.columns@.len() - c,
    {
        assert(batch.columns@[c as int]@.len() == batch.num_rows);
        out.push(batch.columns[c][row].clone());
        assert(batch.row(row as int)[c as int] == batch.columns@[c as int]@[row as int]@);
        c += 1;
    }
    assert(scalar_models(out@) =~= batch.row(row as int));
    out
}

// ── Point lookups by predicate ────────────────────────────────────────────

/// The literal of the first equality on a column.
pub open spec fn eq_literal(ps: Seq<PredicateModel>, col: usize) -> Option<ScalarModel>
    decreases ps.len(),
{
    if ps.len() == 0 {
        None
    } else {
        match ps[0] {
            PredicateModel::Eq(c, v) => if c == col {
                Some(v)
            } else {
                eq_literal(ps.drop_first(), col)
            },
            _ => eq_literal(ps.drop_first(), col),
        }
    }
}

/// The encoded literal that the predicates fix for the key column `name`.
pub open spec fn fixed_part<K: PkCodec>(
    codec: K,
    ps: Seq<PredicateModel>,
    fields: Seq<FieldModel>,
    name: Seq<char>,
) -> Option<Seq<u8>> {
    if !has_named(fields, name) {
        None
    } else {
        let col = choose|i: usize| is_first_named(fields, name, i);
        match eq_literal(ps, col) {
            Some(v) => codec.encoded(v),
            None => None,
        }
    }
}

/// The predicates fix the whole primary key: as many predicates as key
/// columns, and for each key column an equality with a value.
pub open spec fn fixes_key<K: PkCodec>(
    codec: K,
    ps: Seq<PredicateModel>,
    names: Seq<String>,
    fields: Seq<FieldModel>,
) -> bool {
    &&& ps.len() == names.len()
    &&& forall|i: int|
        0 <= i < names.len() ==> fixed_part(codec, ps, fields, (#[trigger] names[i])@) is Some
}

/// The encoded key that the predicates fix.
pub open spec fn fixed_parts<K: PkCodec>(
    codec: K,
    ps: Seq<PredicateModel>,
    names: Seq<String>,
    fields: Seq<FieldModel>,
) -> Seq<Seq<u8>> {
    names.map_values(|n: String| fixed_part(codec, ps, fields, n@)->0)
}

proof fn lemma_first_named_unique(fields: Seq<FieldModel>, name: Seq<char>, i: usize, j: usize)
    requires
        is_first_named(fields, name, i),
        is_first_named(fields, name, j),
    ensures
        i == j,
{
    if i < j {
        assert(fields[i as int].name != name);
    } else if j < i {
        assert(fields[j as int].name != name);
    }
}

fn find_eq_literal<'a>(predicates: &'a [ColumnPredicate], col: usize) -> (r: Option<
    &'a ScalarValue,
>)
    ensures
        match r {
            Some(v) => eq_literal(predicate_models(predicates@), col) == Some(v@),
            None => eq_literal(predicate_models(predicates@), col) is None,
        },
{
    let ghost ps = predicate_models(predicates@);
    let mut i: usize = 0;
    assert(ps.skip(0) =~= ps);
    while i < predicates.len()
        invariant
            ps == predicate_models(predicates@),
            i <= predicates@.len(),
            eq_literal(ps, col) == eq_literal(ps.skip(i as int), col),
        decreases predicates@.len() - i,
    {
        let ghost rest = ps.skip(i as int);
        assert(rest[0] == predicates@[i as int]@);
        assert(rest.drop_first() =~= ps.skip(i + 1));
        if let ColumnPredicate::Eq { col: c, value } = &predicates[i] {
            if *c == col {
                return Some(value);
            }
        }
        i += 1;
    }
    assert(ps.skip(i as int).len() == 0);
    None
}

/// Extracts a primary-key point lookup from the predicates of a statement:
/// the encoded key parts, in the order of the key columns, where the
/// predicates are one equality per key column and nothing else.
pub fn try_extract_pk_eq_from_predicates<K: PkCodec>(
    codec: &K,
    predicates: &[ColumnPredicate],
    primary_key: &[String],
    schema: &Schema,
) -> (r: Option<Vec<Vec<u8>>>)
    ensures
        ({
            let ps = predicate_models(predicates@);
            &&& r is Some <==> fixes_key(*codec, ps, primary_key@, schema@)
            &&& r matches Some(parts) ==> part_views(parts@) == fixed_parts(
                *codec,
                ps,
                primary_key@,
                schema@,
            )
        }),
{
    let ghost ps = predicate_models(predicates@);
    if predicates.len() != primary_key.len() {
        return None;
    }
    let mut parts: Vec<Vec<u8>> = Vec::new();
    let mut i: usize = 0;
    while i < primary_key.len()
        invariant
            ps == predicate_models(predicates@),
            i <= primary_key@.len(),
            parts@.len() == i,
            forall|j: int|
                0 <= j < i ==> fixed_part(*codec, ps, schema@, (#[trigger] primary_key@[j])@)
                    == Some(parts@[j]@),
        decreases primary_key@.len() - i,
    {
        let name = primary_key[i].as_str();
        let col: usize = match schema.index_of(name) {
            Some(c) => c,
            None => {
                assert(!has_named(schema@, primary_key@[i as int]@));
                assert(fixed_part(*codec, ps, schema@, primary_key@[i as int]@) is None);
                return None;
            },
        };
        proof {
            assert(is_first_named(schema@, primary_key@[i as int]@, col));
            let chosen = choose|k: usize| is_first_named(schema@, primary_key@[i as int]@, k);
            lemma_first_named_unique(schema@, primary_key@[i as int]@, col, chosen);
        }
        let value = match find_eq_literal(predicates, col) {
            Some(v) => v,
            None => {
                assert(fixed_part(*codec, ps, schema@, primary_key@[i as int]@) is None);
                return None;
            },
        };
        match codec.encode_pk_value(value) {
            Some(bytes) => {
                parts.push(bytes);
            },
            None => {
                assert(fixed_part(*codec, ps, schema@, primary_key@[i as int]@) is None);
                return None;
            },
        }
        i += 1;
    }
    proof {
        assert forall|j: int| 0 <= j < primary_key@.len() implies fixed_part(
            *codec,
            ps,
            schema@,
            (#[trigger] primary_key@[j])@,
        ) is Some by {
            assert(fixed_part(*codec, ps, schema@, primary_key@[j]@) == Some(parts@[j]@));
        }
        let want = fixed_parts(*codec, ps, primary_key@, schema@);
        assert forall|j: int| 0 <= j < want.len() implies #[trigger] part_views(parts@)[j]
            == want[j] by {
            assert(fixed_part(*codec, ps, schema@, primary_key@[j]@) == Some(parts@[j]@));
        }
        assert(part_views(parts@) =~= want);
    }
    Some(parts)
}

/// The key of a point lookup is the key of the rows that it is meant for: a
/// row whose key columns encode like the literals has the key that the
/// predicates fix.
pub proof fn law_lookup_key_is_row_key<K: PkCodec>(
    codec: K,
    ps: Seq<PredicateModel>,
    names: Seq<String>,
    fields: Seq<FieldModel>,
    cols: Seq<(usize, String)>,
    cells: Seq<ScalarModel>,
)
    requires
        fixes_key(codec, ps, names, fields),
        are_key_columns(cols, fields, names),
        forall|i: int|
            0 <= i < cols.len() ==> eq_literal(ps, (#[trigger] cols[i]).0) is Some
                && codec.encoded(eq_literal(ps, cols[i].0)->0) == codec.encoded(
                cells[cols[i].0 as int],
            ),
    ensures
        fixed_parts(codec, ps, names, fields) == key_parts(codec, cells, cols),
{
    let a = fixed_parts(codec, ps, names, fields);
    let b = key_parts(codec, cells, cols);
    assert forall|i: int| 0 <= i < a.len() implies a[i] == b[i] by {
        let c = cols[i].0;
        assert(is_first_named(fields, names[i]@, c));
        let chosen = choose|k: usize| is_first_named(fields, names[i]@, k);
        lemma_first_named_unique(fields, names[i]@, c, chosen);
        assert(fixed_part(codec, ps, fields, names[i]@) is Some);
    }
    assert(a =~= b);
}

} // verus!
