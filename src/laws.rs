//! Laws of decoding: text without escapes is left alone, each one-letter
//! escape gives its character, and decoding undoes the standard escaping.
use vstd::prelude::*;
use crate::escapes::{
    all_hex_digits, char_of, close_brace_from, decode, digit_value, digits_value, front_unit, hex_field_char,
    is_hex_digit, is_scalar_value, named_escape, unicode_unit,
};

verus! {

/// A text in which no backslash occurs decodes to itself.
pub proof fn lemma_decode_without_backslash(s: Seq<char>)
    requires
        forall|i: int| 0 <= i < s.len() ==> s[i] != '\\',
    ensures
        decode(s) == Some(s),
    decreases s.len(),
{
    if s.len() > 0 {
        let r = s.skip(1);
        assert forall|i: int| 0 <= i < r.len() implies r[i] != '\\' by {
            assert(r[i] == s[i + 1]);
        }
        lemma_decode_without_backslash(r);
        assert(seq![s[0]] + r =~= s);
    }
}

/// A backslash followed by one of the letters of the one-letter escapes
/// decodes to exactly the one character that letter stands for.
pub proof fn lemma_named_escape(sel: char)
    requires
        named_escape(sel) is Some,
    ensures
        decode(seq!['\\', sel]) == Some(seq![named_escape(sel)->0]),
{
    let s = seq!['\\', sel];
    assert(front_unit(s) == Some((named_escape(sel)->0, 2int)));
    assert(s.skip(2) =~= Seq::<char>::empty());
    assert(decode(s.skip(2)) == Some(Seq::<char>::empty()));
    assert(seq![named_escape(sel)->0] + Seq::<char>::empty() =~= seq![named_escape(sel)->0]);
}

/// The lower-case hexadecimal digit for `v` below sixteen.
pub open spec fn lower_hex_digit(v: int) -> char {
    if v < 10 {
        char_of('0' as int + v)
    } else {
        char_of('a' as int + v - 10)
    }
}

/// The lower-case hexadecimal numeral of `v`, without leading zeros.
pub open spec fn lower_hex(v: nat) -> Seq<char>
    decreases v,
{
    if v < 16 {
        seq![lower_hex_digit(v as int)]
    } else {
        lower_hex(v / 16) + seq![lower_hex_digit((v % 16) as int)]
    }
}

/// The standard escaped form of one character: tab, carriage return, line
/// feed, quotes and backslash as one-letter escapes, printable ASCII as it
/// is, and any other character as `\u{...}` with its code point in
/// lower-case hexadecimal.
pub open spec fn escape_char(c: char) -> Seq<char> {
    if c == '\t' {
        seq!['\\', 't']
    } else if c == '\r' {
        seq!['\\', 'r']
    } else if c == '\n' {
        seq!['\\', 'n']
    } else if c == '\\' || c == '\'' || c == '"' {
        seq!['\\', c]
    } else if ' ' <= c <= '~' {
        seq![c]
    } else {
        seq!['\\', 'u', '{'] + lower_hex(c as nat) + seq!['}']
    }
}

/// The standard escaped form of a text, character by character.
pub open spec fn escape_default(s: Seq<char>) -> Seq<char>
    decreases s.len(),
{
    if s.len() == 0 {
        Seq::empty()
    } else {
        escape_char(s[0]) + escape_default(s.drop_first())
    }
}

proof fn lemma_lower_hex_digit(v: int)
    requires
        0 <= v < 16,
    ensures
        is_hex_digit(lower_hex_digit(v)),
        digits_value(seq![lower_hex_digit(v)], 16) == v,
{
    let c = lower_hex_digit(v);
    assert(seq![c].drop_last() =~= Seq::<char>::empty());
    assert(digits_value(Seq::<char>::empty(), 16) == 0);
}

/// The numeral is made of hexadecimal digits and reads back as `v`.
proof fn lemma_lower_hex(v: nat)
    ensures
        lower_hex(v).len() > 0,
        all_hex_digits(lower_hex(v)),
        digits_value(lower_hex(v), 16) == v,
    decreases v,
{
    if v < 16 {
        lemma_lower_hex_digit(v as int);
    } else {
        let h = lower_hex(v / 16);
        let d = lower_hex_digit((v % 16) as int);
        lemma_lower_hex(v / 16);
        lemma_lower_hex_digit((v % 16) as int);
        let e = h + seq![d];
        assert(e.drop_last() =~= h);
        assert forall|i: int| 0 <= i < e.len() implies is_hex_digit(#[trigger] e[i]) by {
            if i < h.len() {
                assert(e[i] == h[i]);
            }
        }
        assert(digits_value(seq![d], 16) == digit_value(d));
    }
}

/// The first closing brace at or after `k` is at `j` when none lies between.
proof fn lemma_close_brace_at(t: Seq<char>, k: int, j: int)
    requires
        0 <= k <= j < t.len(),
        t[j] == '}',
        forall|m: int| k <= m < j ==> t[m] != '}',
    ensures
        close_brace_from(t, k) == Some(j),
    decreases j - k,
{
    if k < j {
        lemma_close_brace_at(t, k + 1, j);
    }
}

/// The escaped form of `c`, followed by anything, decodes first to `c`,
/// taking the whole escaped form.
proof fn lemma_front_of_escaped(c: char, r: Seq<char>)
    ensures
        front_unit(escape_char(c) + r) == Some((c, escape_char(c).len() as int)),
{
    let e = escape_char(c);
    let t = e + r;
    if c == '\t' || c == '\r' || c == '\n' || c == '\\' || c == '\'' || c == '"' {
        assert(t[0] == '\\' && t[1] == e[1]);
    } else if ' ' <= c <= '~' {
        assert(t[0] == c);
    } else {
        let h = lower_hex(c as nat);
        lemma_lower_hex(c as nat);
        let w = t.skip(2);
        let j = h.len() + 1int;
        assert(w =~= seq!['{'] + h + seq!['}'] + r);
        assert forall|m: int| 1 <= m < j implies w[m] != '}' by {
            assert(w[m] == h[m - 1]);
            assert(is_hex_digit(h[m - 1]));
        }
        lemma_close_brace_at(w, 1, j);
        assert(w.subrange(1, j) =~= h);
        assert(is_scalar_value(c as int));
        assert(char_of(c as int) == c);
        assert(hex_field_char(h) == Some(c));
        assert(unicode_unit(w) == Some((c, j + 1)));
        assert(t[0] == '\\' && t[1] == 'u');
    }
}

/// Decoding undoes the standard escaping: the escaped form of any text
/// decodes back to that text.
pub proof fn lemma_decode_escape_default(s: Seq<char>)
    ensures
        decode(escape_default(s)) == Some(s),
    decreases s.len(),
{
    if s.len() > 0 {
        let e = escape_char(s[0]);
        let r = escape_default(s.drop_first());
        lemma_front_of_escaped(s[0], r);
        lemma_decode_escape_default(s.drop_first());
        assert((e + r).skip(e.len() as int) =~= r);
        assert(seq![s[0]] + s.drop_first() =~= s);
    } else {
        assert(escape_default(s) =~= Seq::<char>::empty());
    }
}

} // verus!
