//! What holds of encoded primary keys.

use crate::buf::{lemma_lex_irreflexive, lemma_lex_total, lex_lt};
use crate::keys::{delimited, law_table_key_is_unambiguous, table_key};
use crate::pk::{
    big_endian, escaped, key_bytes, law_escaped_is_zero_free, number_bytes, OrderedPkCodec, PkCodec,
};
use crate::scalar::{
    comparable, key_lt, layout, lemma_one_key_shape, scalar_eq, scalar_lt, sort_key, well_typed,
    KeyModel, ScalarModel,
};
use vstd::prelude::*;

verus! {

// ── Numbers ───────────────────────────────────────────────────────────────

/// The number of values that `k` base-256 digits tell apart.
pub open spec fn digit_values(k: nat) -> int
    decreases k,
{
    if k == 0 {
        1
    } else {
        256 * digit_values((k - 1) as nat)
    }
}

proof fn lemma_big_endian_len(u: int, k: nat)
    ensures
        big_endian(u, k).len() == k,
    decreases k,
{
    if k > 0 {
        lemma_big_endian_len(u / 256, (k - 1) as nat);
    }
}

proof fn lemma_lex_push(a: Seq<u8>, b: Seq<u8>, x: u8, y: u8)
    requires
        a.len() == b.len(),
        lex_lt(a, b) || (a == b && x < y),
    ensures
        lex_lt(a.push(x), b.push(y)),
    decreases a.len(),
{
    if a.len() > 0 {
        assert(a.push(x).drop_first() =~= a.drop_first().push(x));
        assert(b.push(y).drop_first() =~= b.drop_first().push(y));
        if a[0] == b[0] {
            lemma_lex_push(a.drop_first(), b.drop_first(), x, y);
        }
    }
}

proof fn lemma_big_endian_order(u: int, v: int, k: nat)
    requires
        0 <= u < v < digit_values(k),
    ensures
        lex_lt(big_endian(u, k), big_endian(v, k)),
    decreases k,
{
    if k > 0 {
        let h = (k - 1) as nat;
        lemma_big_endian_len(u / 256, h);
        lemma_big_endian_len(v / 256, h);
        if u / 256 < v / 256 {
            lemma_big_endian_order(u / 256, v / 256, h);
        }
        lemma_lex_push(
            big_endian(u / 256, h),
            big_endian(v / 256, h),
            (u % 256) as u8,
            (v % 256) as u8,
        );
    }
}

/// The number can be encoded.
pub open spec fn encodable(n: int) -> bool {
    i128::MIN <= n <= i128::MAX
}

proof fn lemma_number_order(a: int, b: int)
    requires
        encodable(a),
        encodable(b),
    ensures
        number_bytes(a).len() == 16,
        number_bytes(b).len() == 16,
        a < b ==> lex_lt(number_bytes(a), number_bytes(b)),
        a == b <==> number_bytes(a) == number_bytes(b),
{
    let half: int = 0x8000_0000_0000_0000_0000_0000_0000_0000;
    assert(digit_values(16) == 2 * half) by {
        reveal_with_fuel(digit_values, 17);
    }
    lemma_big_endian_len(a + half, 16);
    lemma_big_endian_len(b + half, 16);
    lemma_lex_irreflexive(number_bytes(a));
    if a < b {
        lemma_big_endian_order(a + half, b + half, 16);
    } else if b < a {
        lemma_big_endian_order(b + half, a + half, 16);
    }
}

// ── Texts and bytes ───────────────────────────────────────────────────────

/// How one byte is escaped.
pub open spec fn escape(b: u8) -> Seq<u8> {
    if b == 0 {
        seq![1u8, 1u8]
    } else if b == 1 {
        seq![1u8, 2u8]
    } else {
        seq![b]
    }
}

proof fn lemma_escaped_first(s: Seq<u8>)
    requires
        s.len() > 0,
    ensures
        escaped(s) == escape(s[0]) + escaped(s.drop_first()),
    decreases s.len(),
{
    if s.len() == 1 {
        assert(s.drop_last() =~= Seq::<u8>::empty());
        assert(s.drop_first() =~= Seq::<u8>::empty());
        assert(escaped(s) =~= escape(s[0]) + escaped(s.drop_first()));
    } else {
        let init = s.drop_last();
        let rest = s.drop_first();
        lemma_escaped_first(init);
        assert(init.drop_first() =~= rest.drop_last());
        assert(rest.last() == s.last());
        assert(init[0] == s[0]);
        assert(escaped(s) =~= escape(s[0]) + escaped(rest));
    }
}

proof fn lemma_lex_front(front: Seq<u8>, a: Seq<u8>, b: Seq<u8>)
    ensures
        lex_lt(front + a, front + b) == lex_lt(a, b),
    decreases front.len(),
{
    if front.len() == 0 {
        assert(front + a =~= a);
        assert(front + b =~= b);
    } else {
        assert((front + a).drop_first() =~= front.drop_first() + a);
        assert((front + b).drop_first() =~= front.drop_first() + b);
        lemma_lex_front(front.drop_first(), a, b);
    }
}

proof fn lemma_escape_order(x: u8, y: u8, a: Seq<u8>, b: Seq<u8>)
    requires
        x < y,
    ensures
        lex_lt(escape(x) + a, escape(y) + b),
{
    let s = escape(x) + a;
    let t = escape(y) + b;
    if x == 0 && y == 1 {
        assert(s[0] == 1 && t[0] == 1);
        assert(s.drop_first()[0] == 1);
        assert(t.drop_first()[0] == 2);
        assert(lex_lt(s.drop_first(), t.drop_first()));
    } else {
        assert(s[0] < t[0]);
    }
}

proof fn lemma_escaped_order(a: Seq<u8>, b: Seq<u8>)
    requires
        lex_lt(a, b),
    ensures
        lex_lt(escaped(a), escaped(b)),
    decreases a.len(),
{
    lemma_escaped_first(b);
    if a.len() > 0 {
        lemma_escaped_first(a);
        let (ta, tb) = (a.drop_first(), b.drop_first());
        if a[0] < b[0] {
            lemma_escape_order(a[0], b[0], escaped(ta), escaped(tb));
        } else {
            lemma_escaped_order(ta, tb);
            lemma_lex_front(escape(a[0]), escaped(ta), escaped(tb));
        }
    }
}

// ── Values ────────────────────────────────────────────────────────────────

/// Every number in a comparison key can be encoded.
pub open spec fn key_encodable(k: KeyModel) -> bool {
    match k {
        KeyModel::Num(n) => encodable(n),
        KeyModel::Raw(_) | KeyModel::Token(_) => true,
        KeyModel::Fields(x, y, z) => encodable(x) && encodable(y) && encodable(z),
    }
}

proof fn lemma_fields_order(a: Seq<u8>, b: Seq<u8>, s: Seq<u8>, t: Seq<u8>)
    requires
        a.len() == b.len(),
        lex_lt(a, b),
    ensures
        lex_lt(a + s, b + t),
    decreases a.len(),
{
    assert((a + s).drop_first() =~= a.drop_first() + s);
    assert((b + t).drop_first() =~= b.drop_first() + t);
    if a[0] == b[0] {
        lemma_fields_order(a.drop_first(), b.drop_first(), s, t);
    }
}

proof fn lemma_key_bytes_order(a: KeyModel, b: KeyModel)
    requires
        key_encodable(a),
        key_encodable(b),
        key_lt(a, b),
    ensures
        lex_lt(key_bytes(a), key_bytes(b)),
{
    match (a, b) {
        (KeyModel::Num(x), KeyModel::Num(y)) => {
            lemma_number_order(x, y);
        },
        (KeyModel::Raw(x), KeyModel::Raw(y)) => {
            lemma_escaped_order(x, y);
        },
        (KeyModel::Fields(x0, x1, x2), KeyModel::Fields(y0, y1, y2)) => {
            lemma_number_order(x0, y0);
            lemma_number_order(x1, y1);
            lemma_number_order(x2, y2);
            let (a0, a1, a2) = (number_bytes(x0), number_bytes(x1), number_bytes(x2));
            let (b0, b1, b2) = (number_bytes(y0), number_bytes(y1), number_bytes(y2));
            assert(key_bytes(a) =~= a0 + (a1 + a2));
            assert(key_bytes(b) =~= b0 + (b1 + b2));
            if x0 < y0 {
                lemma_fields_order(a0, b0, a1 + a2, b1 + b2);
            } else {
                lemma_lex_front(a0, a1 + a2, b1 + b2);
                if x1 < y1 {
                    lemma_fields_order(a1, b1, a2, b2);
                } else {
                    lemma_lex_front(a1, a2, b2);
                }
            }
        },
        _ => {},
    }
}

/// The value can stand in a primary key: it is no null, and of a type that
/// rows can hold.
pub open spec fn can_be_key(m: ScalarModel) -> bool {
    well_typed(m) && m.payload is Some && m.payload->0 !is Other
}

proof fn lemma_value_encodable(m: ScalarModel)
    requires
        can_be_key(m),
    ensures
        key_encodable(sort_key(m.ty, m.payload->0)),
{
    reveal(sort_key);
    reveal(layout);
}

proof fn lemma_keys_are_ordered(a: KeyModel, b: KeyModel, m: ScalarModel, n: ScalarModel)
    requires
        can_be_key(m),
        can_be_key(n),
        comparable(m, n),
        a == sort_key(m.ty, m.payload->0),
        b == sort_key(n.ty, n.payload->0),
    ensures
        a == b || key_lt(a, b) || key_lt(b, a),
        !(a == b && key_lt(a, b)),
        !(key_lt(a, b) && key_lt(b, a)),
{
    lemma_one_key_shape(m, n);
    match (a, b) {
        (KeyModel::Raw(x), KeyModel::Raw(y)) => {
            lemma_lex_total(x, y);
        },
        _ => {},
    }
}

/// Encoded values of one type are in dictionary order exactly where the
/// values are in order, and equal exactly where they are equal.
pub proof fn law_encoding_keeps_order(m: ScalarModel, n: ScalarModel)
    requires
        can_be_key(m),
        can_be_key(n),
        comparable(m, n),
    ensures
        OrderedPkCodec.encoded(m) is Some,
        OrderedPkCodec.encoded(n) is Some,
        lex_lt(OrderedPkCodec.encoded(m)->0, OrderedPkCodec.encoded(n)->0) <==> scalar_lt(m, n),
        OrderedPkCodec.encoded(m) == OrderedPkCodec.encoded(n) <==> scalar_eq(m, n),
{
    let a = sort_key(m.ty, m.payload->0);
    let b = sort_key(n.ty, n.payload->0);
    lemma_value_encodable(m);
    lemma_value_encodable(n);
    lemma_keys_are_ordered(a, b, m, n);
    lemma_lex_total(key_bytes(a), key_bytes(b));
    if key_lt(a, b) {
        lemma_key_bytes_order(a, b);
    }
    if key_lt(b, a) {
        lemma_key_bytes_order(b, a);
    }
}

// ── Keys of rows ──────────────────────────────────────────────────────────

/// The encodings of the values of a primary key.
pub open spec fn encodings(ms: Seq<ScalarModel>) -> Seq<Seq<u8>> {
    ms.map_values(|m: ScalarModel| OrderedPkCodec.encoded(m)->0)
}

proof fn lemma_encodings_delimited(m: ScalarModel, n: ScalarModel)
    requires
        can_be_key(m),
        can_be_key(n),
        comparable(m, n),
    ensures
        delimited(OrderedPkCodec.encoded(m)->0, OrderedPkCodec.encoded(n)->0),
{
    let a = sort_key(m.ty, m.payload->0);
    let b = sort_key(n.ty, n.payload->0);
    lemma_value_encodable(m);
    lemma_value_encodable(n);
    lemma_one_key_shape(m, n);
    match (a, b) {
        (KeyModel::Num(x), KeyModel::Num(y)) => {
            lemma_number_order(x, y);
        },
        (KeyModel::Raw(x), KeyModel::Raw(y)) => {
            law_escaped_is_zero_free(x);
            law_escaped_is_zero_free(y);
        },
        (KeyModel::Fields(x0, x1, x2), KeyModel::Fields(y0, y1, y2)) => {
            lemma_number_order(x0, y0);
            lemma_number_order(x1, y1);
            lemma_number_order(x2, y2);
        },
        _ => {},
    }
}

/// Two rows of one table have the same storage key exactly where the values
/// of their primary keys are equal.
pub proof fn law_row_keys_are_unambiguous(
    table: Seq<char>,
    ms: Seq<ScalarModel>,
    ns: Seq<ScalarModel>,
)
    requires
        ms.len() == ns.len(),
        forall|i: int|
            0 <= i < ms.len() ==> can_be_key(#[trigger] ms[i]) && can_be_key(ns[i]) && comparable(
                ms[i],
                ns[i],
            ),
    ensures
        table_key(table, encodings(ms)) == table_key(table, encodings(ns)) <==> forall|i: int|
            0 <= i < ms.len() ==> scalar_eq(#[trigger] ms[i], ns[i]),
{
    let (a, b) = (encodings(ms), encodings(ns));
    assert forall|i: int| 0 <= i < a.len() implies delimited(#[trigger] a[i], b[i]) by {
        assert(can_be_key(ms[i]));
        lemma_encodings_delimited(ms[i], ns[i]);
    }
    assert forall|i: int| 0 <= i < ms.len() implies (#[trigger] a[i] == b[i] <==> scalar_eq(
        ms[i],
        ns[i],
    )) by {
        assert(can_be_key(ms[i]));
        law_encoding_keeps_order(ms[i], ns[i]);
    }
    if table_key(table, a) == table_key(table, b) {
        law_table_key_is_unambiguous(table, a, b);
        assert forall|i: int| 0 <= i < ms.len() implies scalar_eq(#[trigger] ms[i], ns[i]) by {
            assert(a[i] == b[i]);
        }
    }
    if forall|i: int| 0 <= i < ms.len() ==> scalar_eq(#[trigger] ms[i], ns[i]) {
        assert forall|i: int| 0 <= i < a.len() implies a[i] == b[i] by {
            assert(scalar_eq(ms[i], ns[i]));
        }
        assert(a =~= b);
    }
}

} // verus!
