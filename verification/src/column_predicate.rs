//! Single-column predicates that a scan can evaluate on decoded rows.
//!
//! Predicates are combined by AND. A null never satisfies a predicate.

use crate::buf::{bytes_slice, lemma_lex_irreflexive, lemma_lex_total, KeyOrder};
use crate::error::Result;
use crate::memtable::{row_models, RowModel, VersionedRow};
use crate::row_codec::{cells_of, decode_row_values, is_fault, Fault};
use crate::scalar::{
    key_lt, scalar_eq, scalar_lt, scalar_models, sort_key, KeyModel, ScalarModel, ScalarValue,
    TypeModel,
};
use crate::schema::{types_of, FieldModel, Schema};
use vstd::prelude::*;

verus! {

/// A predicate on one column, addressed by its place in the schema.
#[derive(Debug, PartialEq, Eq)]
pub enum ColumnPredicate {
    /// `col = value`.
    Eq {
        /// Column.
        col: usize,
        /// Literal.
        value: ScalarValue,
    },
    /// `col < value`.
    LessThan {
        /// Column.
        col: usize,
        /// Literal.
        value: ScalarValue,
    },
    /// `col <= value`.
    LessThanOrEqual {
        /// Column.
        col: usize,
        /// Literal.
        value: ScalarValue,
    },
    /// `col > value`.
    GreaterThan {
        /// Column.
        col: usize,
        /// Literal.
        value: ScalarValue,
    },
    /// `col >= value`.
    GreaterThanOrEqual {
        /// Column.
        col: usize,
        /// Literal.
        value: ScalarValue,
    },
    /// Both bounds, each of which may be missing.
    Range {
        /// Column.
        col: usize,
        /// Lower bound.
        lower: Option<Bound>,
        /// Upper bound.
        upper: Option<Bound>,
    },
}

/// Bound of a [`ColumnPredicate::Range`].
#[derive(Debug, PartialEq, Eq)]
pub struct Bound {
    /// Literal.
    pub value: ScalarValue,
    /// Whether the literal itself is within.
    pub inclusive: bool,
}

/// What a bound says.
#[verifier::ext_equal]
pub struct BoundModel {
    /// Literal.
    pub value: ScalarModel,
    /// Whether the literal itself is within.
    pub inclusive: bool,
}

impl View for Bound {
    type V = BoundModel;

    open spec fn view(&self) -> BoundModel {
        BoundModel { value: self.value@, inclusive: self.inclusive }
    }
}

impl Clone for Bound {
    fn clone(&self) -> (r: Self)
        ensures
            r@ == self@,
    {
        Bound { value: self.value.clone(), inclusive: self.inclusive }
    }
}

impl Bound {
    /// A bound that admits `value`.
    pub fn inclusive(value: ScalarValue) -> (r: Self)
        ensures
            r@ == (BoundModel { value: value@, inclusive: true }),
    {
        Bound { value, inclusive: true }
    }

    /// A bound that does not admit `value`.
    pub fn exclusive(value: ScalarValue) -> (r: Self)
        ensures
            r@ == (BoundModel { value: value@, inclusive: false }),
    {
        Bound { value, inclusive: false }
    }
}

/// What a predicate says.
#[verifier::ext_equal]
pub enum PredicateModel {
    /// `col = value`.
    Eq(usize, ScalarModel),
    /// `col < value`.
    LessThan(usize, ScalarModel),
    /// `col <= value`.
    LessThanOrEqual(usize, ScalarModel),
    /// `col > value`.
    GreaterThan(usize, ScalarModel),
    /// `col >= value`.
    GreaterThanOrEqual(usize, ScalarModel),
    /// Both bounds.
    Range(usize, Option<BoundModel>, Option<BoundModel>),
}

/// What an optional bound says.
pub open spec fn bound_model(b: Option<Bound>) -> Option<BoundModel> {
    match b {
        Some(b) => Some(b@),
        None => None,
    }
}

impl View for ColumnPredicate {
    type V = PredicateModel;

    open spec fn view(&self) -> PredicateModel {
        match *self {
            ColumnPredicate::Eq { col, value } => PredicateModel::Eq(col, value@),
            ColumnPredicate::LessThan { col, value } => PredicateModel::LessThan(col, value@),
            ColumnPredicate::LessThanOrEqual { col, value } => PredicateModel::LessThanOrEqual(
                col,
                value@,
            ),
            ColumnPredicate::GreaterThan { col, value } => PredicateModel::GreaterThan(col, value@),
            ColumnPredicate::GreaterThanOrEqual { col, value } => {
                PredicateModel::GreaterThanOrEqual(col, value@)
            },
            ColumnPredicate::Range { col, lower, upper } => PredicateModel::Range(
                col,
                bound_model(lower),
                bound_model(upper),
            ),
        }
    }
}

fn clone_bound(b: &Option<Bound>) -> (r: Option<Bound>)
    ensures
        bound_model(r) == bound_model(*b),
{
    match b {
        Some(b) => Some(b.clone()),
        None => None,
    }
}

impl Clone for ColumnPredicate {
    fn clone(&self) -> (r: Self)
        ensures
            r@ == self@,
    {
        match self {
            ColumnPredicate::Eq { col, value } => ColumnPredicate::Eq {
                col: *col,
                value: value.clone(),
            },
            ColumnPredicate::LessThan { col, value } => ColumnPredicate::LessThan {
                col: *col,
                value: value.clone(),
            },
            ColumnPredicate::LessThanOrEqual { col, value } => ColumnPredicate::LessThanOrEqual {
                col: *col,
                value: value.clone(),
            },
            ColumnPredicate::GreaterThan { col, value } => ColumnPredicate::GreaterThan {
                col: *col,
                value: value.clone(),
            },
            ColumnPredicate::GreaterThanOrEqual { col, value } => {
                ColumnPredicate::GreaterThanOrEqual { col: *col, value: value.clone() }
            },
            ColumnPredicate::Range { col, lower, upper } => ColumnPredicate::Range {
                col: *col,
                lower: clone_bound(lower),
                upper: clone_bound(upper),
            },
        }
    }
}

/// What a list of predicates says.
pub open spec fn predicate_models(ps: Seq<ColumnPredicate>) -> Seq<PredicateModel> {
    ps.map_values(|p: ColumnPredicate| p@)
}

/// The column that a predicate addresses.
pub open spec fn column_of(p: PredicateModel) -> usize {
    match p {
        PredicateModel::Eq(c, _) => c,
        PredicateModel::LessThan(c, _) => c,
        PredicateModel::LessThanOrEqual(c, _) => c,
        PredicateModel::GreaterThan(c, _) => c,
        PredicateModel::GreaterThanOrEqual(c, _) => c,
        PredicateModel::Range(c, _, _) => c,
    }
}

/// `a` is less than `b` or equal to it.
pub open spec fn scalar_le(a: ScalarModel, b: ScalarModel) -> bool {
    scalar_lt(a, b) || scalar_eq(a, b)
}

/// `v` is above the lower bound.
pub open spec fn above(v: ScalarModel, b: Option<BoundModel>) -> bool {
    match b {
        None => true,
        Some(b) => if b.inclusive {
            scalar_le(b.value, v)
        } else {
            scalar_lt(b.value, v)
        },
    }
}

/// `v` is below the upper bound.
pub open spec fn below(v: ScalarModel, b: Option<BoundModel>) -> bool {
    match b {
        None => true,
        Some(b) => if b.inclusive {
            scalar_le(v, b.value)
        } else {
            scalar_lt(v, b.value)
        },
    }
}

/// The value satisfies the predicate. A null satisfies none, and neither does
/// a value that cannot be compared with the literal.
pub open spec fn satisfies(v: ScalarModel, p: PredicateModel) -> bool {
    v.payload is Some && match p {
        PredicateModel::Eq(_, x) => scalar_eq(v, x),
        PredicateModel::LessThan(_, x) => scalar_lt(v, x),
        PredicateModel::LessThanOrEqual(_, x) => scalar_le(v, x),
        PredicateModel::GreaterThan(_, x) => scalar_lt(x, v),
        PredicateModel::GreaterThanOrEqual(_, x) => scalar_le(x, v),
        PredicateModel::Range(_, lower, upper) => above(v, lower) && below(v, upper),
    }
}

/// The row has every addressed column and satisfies every predicate.
pub open spec fn row_satisfies(cells: Seq<ScalarModel>, ps: Seq<PredicateModel>) -> bool {
    forall|i: int|
        0 <= i < ps.len() ==> {
            let c = column_of(#[trigger] ps[i]) as int;
            c < cells.len() && satisfies(cells[c], ps[i])
        }
}

fn is_less(a: &ScalarValue, b: &ScalarValue) -> (r: bool)
    ensures
        r == scalar_lt(a@, b@),
{
    match a.order(b) {
        Some(KeyOrder::Less) => true,
        _ => false,
    }
}

fn is_less_or_equal(a: &ScalarValue, b: &ScalarValue) -> (r: bool)
    ensures
        r == scalar_le(a@, b@),
{
    match a.order(b) {
        Some(KeyOrder::Less) => true,
        Some(KeyOrder::Equal) => true,
        _ => false,
    }
}

fn is_equal(a: &ScalarValue, b: &ScalarValue) -> (r: bool)
    ensures
        r == scalar_eq(a@, b@),
{
    match a.order(b) {
        Some(KeyOrder::Equal) => true,
        _ => false,
    }
}

impl ColumnPredicate {
    /// Returns the column index this predicate addresses.
    pub fn column(&self) -> (r: usize)
        ensures
            r == column_of(self@),
    {
        match self {
            ColumnPredicate::Eq { col, .. } => *col,
            ColumnPredicate::LessThan { col, .. } => *col,
            ColumnPredicate::LessThanOrEqual { col, .. } => *col,
            ColumnPredicate::GreaterThan { col, .. } => *col,
            ColumnPredicate::GreaterThanOrEqual { col, .. } => *col,
            ColumnPredicate::Range { col, .. } => *col,
        }
    }

    /// Evaluates the predicate against `value`. A null never satisfies it.
    pub fn evaluate(&self, value: &ScalarValue) -> (r: bool)
        ensures
            r == satisfies(value@, self@),
    {
        if value.is_null() {
            return false;
        }
        match self {
            ColumnPredicate::Eq { value: rhs, .. } => is_equal(value, rhs),
            ColumnPredicate::LessThan { value: rhs, .. } => is_less(value, rhs),
            ColumnPredicate::LessThanOrEqual { value: rhs, .. } => is_less_or_equal(value, rhs),
            ColumnPredicate::GreaterThan { value: rhs, .. } => is_less(rhs, value),
            ColumnPredicate::GreaterThanOrEqual { value: rhs, .. } => is_less_or_equal(rhs, value),
            ColumnPredicate::Range { lower, upper, .. } => {
                let low_ok = match lower {
                    Some(low) => if low.inclusive {
                        is_less_or_equal(&low.value, value)
                    } else {
                        is_less(&low.value, value)
                    },
                    None => true,
                };
                let high_ok = match upper {
                    Some(high) => if high.inclusive {
                        is_less_or_equal(value, &high.value)
                    } else {
                        is_less(value, &high.value)
                    },
                    None => true,
                };
                low_ok && high_ok
            },
        }
    }
}

/// Returns whether `decoded` satisfies every predicate; a missing column does
/// not match.
pub fn row_matches(decoded: &[ScalarValue], predicates: &[ColumnPredicate]) -> (r: bool)
    ensures
        r == row_satisfies(scalar_models(decoded@), predicate_models(predicates@)),
{
    let ghost cells = scalar_models(decoded@);
    let ghost ps = predicate_models(predicates@);
    let mut i: usize = 0;
    while i < predicates.len()
        invariant
            i <= predicates@.len(),
            cells == scalar_models(decoded@),
            ps == predicate_models(predicates@),
            forall|j: int|
                0 <= j < i ==> {
                    let c = column_of(#[trigger] ps[j]) as int;
                    c < cells.len() && satisfies(cells[c], ps[j])
                },
        decreases predicates@.len() - i,
    {
        let pred = &predicates[i];
        assert(ps[i as int] == pred@);
        let col: usize = pred.column();
        if col >= decoded.len() {
            return false;
        }
        assert(cells[col as int] == decoded@[col as int]@);
        if !pred.evaluate(&decoded[col]) {
            return false;
        }
        i += 1;
    }
    true
}

/// The row stays: it is no tombstone, and its values satisfy the predicates.
pub open spec fn row_stays(
    row: RowModel,
    types: Seq<TypeModel>,
    ps: Seq<PredicateModel>,
) -> bool {
    row.version.value matches Some(b) && (cells_of(b, types) matches Ok(p) && row_satisfies(
        p.0,
        ps,
    ))
}

/// The row cannot be decoded.
pub open spec fn row_fault(row: RowModel, types: Seq<TypeModel>) -> Option<Fault> {
    match row.version.value {
        None => None,
        Some(b) => match cells_of(b, types) {
            Ok(_) => None,
            Err(f) => Some(f),
        },
    }
}

/// Keeps the rows that satisfy every predicate, in order. Without predicates,
/// or without a schema, all rows stay. A live row that cannot be decoded is an
/// error.
pub fn apply_row_predicates(
    rows: &[VersionedRow],
    row_schema: &Schema,
    predicates: &[ColumnPredicate],
) -> (r: Result<Vec<VersionedRow>>)
    ensures
        ({
            let ms = row_models(rows@);
            let ps = predicate_models(predicates@);
            let types = types_of(row_schema@);
            if ps.len() == 0 || types.len() == 0 {
                r matches Ok(out) && row_models(out@) == ms
            } else {
                &&& r is Ok <==> forall|i: int|
                    0 <= i < ms.len() ==> row_fault(#[trigger] ms[i], types) is None
                &&& r matches Ok(out) ==> row_models(out@) == ms.filter(
                    |m: RowModel| row_stays(m, types, ps),
                )
                &&& r matches Err(e) ==> exists|i: int|
                    0 <= i < ms.len() && (row_fault(#[trigger] ms[i], types) matches Some(f)
                        && is_fault(e, f)) && forall|j: int|
                        0 <= j < i ==> row_fault(#[trigger] ms[j], types) is None
            }
        }),
{
    let ghost ms = row_models(rows@);
    let ghost ps = predicate_models(predicates@);
    let ghost types = types_of(row_schema@);
    let all = predicates.len() == 0 || row_schema.fields.len() == 0;
    let ghost keep = |m: RowModel| row_stays(m, types, ps);
    let mut out: Vec<VersionedRow> = Vec::new();
    let mut i: usize = 0;
    proof {
        reveal(Seq::filter);
        assert(row_models(out@) =~= ms.take(0));
        assert(ms.take(0).filter(keep) =~= Seq::<RowModel>::empty());
    }
    while i < rows.len()
        invariant
            i <= rows@.len(),
            ms == row_models(rows@),
            ps == predicate_models(predicates@),
            types == types_of(row_schema@),
            all == (ps.len() == 0 || types.len() == 0),
            keep == (|m: RowModel| row_stays(m, types, ps)),
            all ==> row_models(out@) == ms.take(i as int),
            !all ==> row_models(out@) == ms.take(i as int).filter(keep),
            !all ==> forall|j: int| 0 <= j < i ==> row_fault(#[trigger] ms[j], types) is None,
        decreases rows@.len() - i,
    {
        let row = &rows[i];
        let ghost m = row@;
        let ghost before = out@;
        proof {
            assert(ms[i as int] == m);
            assert(ms.take(i + 1).drop_last() =~= ms.take(i as int));
            assert(ms.take(i + 1) =~= ms.take(i as int).push(m));
            reveal(Seq::filter);
        }
        let stays = if all {
            true
        } else {
            match &row.version.value {
                None => false,
                Some(payload) => {
                    match decode_row_values(bytes_slice(payload), row_schema) {
                        Ok(decoded) => row_matches(decoded.as_slice(), predicates),
                        Err(e) => {
                            return Err(e);
                        },
                    }
                },
            }
        };
        if stays {
            out.push(row.clone());
            assert(row_models(out@) =~= row_models(before).push(m));
        }
        i += 1;
    }
    assert(ms.take(i as int) =~= ms);
    Ok(out)
}

/// Pairs each predicate with the name of its column, in order; predicates on
/// columns that the schema does not have are left out.
pub fn predicates_with_fields(predicates: &[ColumnPredicate], schema: &Schema) -> (r: Vec<
    (String, ColumnPredicate),
>)
    ensures
        named_models(r@) == with_names(predicate_models(predicates@), schema@),
{
    let ghost ps = predicate_models(predicates@);
    let mut out: Vec<(String, ColumnPredicate)> = Vec::new();
    let mut i: usize = 0;
    assert(named_models(out@) =~= with_names(ps.take(0), schema@));
    while i < predicates.len()
        invariant
            i <= predicates@.len(),
            ps == predicate_models(predicates@),
            named_models(out@) == with_names(ps.take(i as int), schema@),
        decreases predicates@.len() - i,
    {
        let p = &predicates[i];
        assert(ps.take(i + 1).drop_last() =~= ps.take(i as int));
        assert(ps.take(i + 1).last() == p@);
        let col: usize = p.column();
        let ghost before = out@;
        if col < schema.fields.len() {
            let name: String = schema.fields[col].name.clone();
            let q = p.clone();
            let ghost pair = (name@, q@);
            out.push((name, q));
            assert(named_models(out@) =~= named_models(before).push(pair));
        }
        i += 1;
    }
    assert(ps.take(i as int) =~= ps);
    out
}

/// What a list of named predicates says.
pub open spec fn named_models(
    out: Seq<(String, ColumnPredicate)>,
) -> Seq<(Seq<char>, PredicateModel)> {
    out.map_values(|p: (String, ColumnPredicate)| (p.0@, p.1@))
}

/// The predicates with their columns' names.
pub open spec fn with_names(
    ps: Seq<PredicateModel>,
    fields: Seq<FieldModel>,
) -> Seq<(Seq<char>, PredicateModel)>
    decreases ps.len(),
{
    if ps.len() == 0 {
        Seq::empty()
    } else {
        let front = with_names(ps.drop_last(), fields);
        let c = column_of(ps.last()) as int;
        if c < fields.len() {
            front.push((fields[c].name, ps.last()))
        } else {
            front
        }
    }
}

// ── Laws ──────────────────────────────────────────────────────────────────

/// A null satisfies no predicate.
pub proof fn law_null_never_satisfies(v: ScalarModel, p: PredicateModel)
    requires
        v.payload is None,
    ensures
        !satisfies(v, p),
{
}

/// A range holds exactly where its two one-sided comparisons hold: a lower and
/// an upper comparison on one column can be merged into it.
pub proof fn law_range_is_both_sides(
    v: ScalarModel,
    col: usize,
    low: ScalarModel,
    low_inclusive: bool,
    high: ScalarModel,
    high_inclusive: bool,
)
    ensures
        satisfies(
            v,
            PredicateModel::Range(
                col,
                Some(BoundModel { value: low, inclusive: low_inclusive }),
                Some(BoundModel { value: high, inclusive: high_inclusive }),
            ),
        ) <==> {
            &&& satisfies(
                v,
                if low_inclusive {
                    PredicateModel::GreaterThanOrEqual(col, low)
                } else {
                    PredicateModel::GreaterThan(col, low)
                },
            )
            &&& satisfies(
                v,
                if high_inclusive {
                    PredicateModel::LessThanOrEqual(col, high)
                } else {
                    PredicateModel::LessThan(col, high)
                },
            )
        },
{
}

proof fn lemma_key_lt_asymmetric(a: KeyModel, b: KeyModel)
    ensures
        !(key_lt(a, b) && key_lt(b, a)),
        !key_lt(a, a),
{
    match (a, b) {
        (KeyModel::Raw(x), KeyModel::Raw(y)) => {
            lemma_lex_total(x, y);
        },
        _ => {},
    }
    match a {
        KeyModel::Raw(x) => {
            lemma_lex_irreflexive(x);
        },
        _ => {},
    }
}

/// At most one of less, equal and greater holds of two scalars.
pub proof fn law_order_is_exclusive(a: ScalarModel, b: ScalarModel)
    ensures
        !(scalar_lt(a, b) && scalar_lt(b, a)),
        !(scalar_lt(a, b) && scalar_eq(a, b)),
        scalar_eq(a, b) == scalar_eq(b, a),
{
    match (a.payload, b.payload) {
        (Some(p), Some(q)) => {
            lemma_key_lt_asymmetric(sort_key(a.ty, p), sort_key(b.ty, q));
        },
        _ => {},
    }
}

} // verus!
