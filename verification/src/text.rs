//! Text built from numbers: the decimal and hexadecimal forms that messages
//! and the metrics exporter use.

use vstd::prelude::*;

verus! {

/// `String::push` appends one character.
pub assume_specification[ String::push ](s: &mut String, c: char)
    ensures
        final(s)@ == old(s)@.push(c),
;

/// The character of a decimal digit.
pub open spec fn digit_char(d: int) -> char {
    (48 + d) as char
}

/// The decimal form of `n`, without leading zeros.
pub open spec fn decimal(n: nat) -> Seq<char>
    decreases n,
{
    if n < 10 {
        seq![digit_char(n as int)]
    } else {
        decimal(n / 10).push(digit_char((n % 10) as int))
    }
}

/// The lower-case character of a hexadecimal digit.
pub open spec fn hex_char(d: int) -> char {
    if d < 10 {
        (48 + d) as char
    } else {
        (87 + d) as char
    }
}

/// `v` as `0x` and two lower-case hexadecimal digits.
pub open spec fn hex_byte(v: u8) -> Seq<char> {
    seq!['0', 'x', hex_char(v as int / 16), hex_char(v as int % 16)]
}

fn digit(d: u8) -> (c: char)
    requires
        d < 10,
    ensures
        c == digit_char(d as int),
{
    (48 + d) as char
}

fn hex_digit(d: u8) -> (c: char)
    requires
        d < 16,
    ensures
        c == hex_char(d as int),
{
    if d < 10 {
        (48 + d) as char
    } else {
        (87 + d) as char
    }
}

/// Appends the decimal form of `n` to `out`.
pub fn push_decimal(out: &mut String, n: u64)
    ensures
        final(out)@ == old(out)@ + decimal(n as nat),
    decreases n,
{
    if n < 10 {
        out.push(digit(n as u8));
        assert(out@ =~= old(out)@ + decimal(n as nat));
    } else {
        push_decimal(out, n / 10);
        out.push(digit((n % 10) as u8));
        assert(out@ =~= old(out)@ + decimal(n as nat));
    }
}

/// Appends `v` as two hexadecimal digits to `out`.
pub fn push_hex_digits(out: &mut String, v: u8)
    ensures
        final(out)@ == old(out)@ + seq![hex_char(v as int / 16), hex_char(v as int % 16)],
{
    out.push(hex_digit(v / 16));
    out.push(hex_digit(v % 16));
    assert(out@ =~= old(out)@ + seq![hex_char(v as int / 16), hex_char(v as int % 16)]);
}

/// Appends `v` as `0x` and two hexadecimal digits to `out`.
pub fn push_hex_byte(out: &mut String, v: u8)
    ensures
        final(out)@ == old(out)@ + hex_byte(v),
{
    out.push('0');
    out.push('x');
    out.push(hex_digit(v / 16));
    out.push(hex_digit(v % 16));
    assert(out@ =~= old(out)@ + hex_byte(v));
}

/// Different numbers have different decimal forms.
pub proof fn lemma_decimal_injective(a: nat, b: nat)
    requires
        decimal(a) == decimal(b),
    ensures
        a == b,
    decreases a,
{
    lemma_decimal_len(a);
    lemma_decimal_len(b);
    let da = decimal(a);
    let db = decimal(b);
    assert(da.last() == db.last());
    assert(da.last() == digit_char((a % 10) as int)) by {
        if a < 10 {
            assert(a % 10 == a);
        }
    }
    assert(db.last() == digit_char((b % 10) as int)) by {
        if b < 10 {
            assert(b % 10 == b);
        }
    }
    assert(a % 10 == b % 10);
    if a < 10 {
        if b >= 10 {
            lemma_decimal_len(b / 10);
        }
    } else if b < 10 {
        lemma_decimal_len(a / 10);
    } else {
        assert(da.drop_last() =~= decimal(a / 10));
        assert(db.drop_last() =~= decimal(b / 10));
        lemma_decimal_injective(a / 10, b / 10);
    }
}

proof fn lemma_decimal_len(n: nat)
    ensures
        decimal(n).len() >= 1,
        n >= 10 ==> decimal(n).len() >= 2,
    decreases n,
{
    if n >= 10 {
        lemma_decimal_len(n / 10);
    }
}

} // verus!
