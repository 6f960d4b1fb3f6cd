//! What a backslash-escaped text means: the escape units, their digits, and
//! the decoded text, as spec functions over character sequences.
use vstd::prelude::*;

verus! {

/// Is `v` a Unicode scalar value: in range and outside the surrogates.
pub open spec fn is_scalar_value(v: int) -> bool {
    0 <= v <= 0x10FFFF && !(0xD800 <= v <= 0xDFFF)
}

/// The character whose code point is `v`.
pub open spec fn char_of(v: int) -> char {
    (v as u32) as char
}

pub open spec fn is_octal_digit(c: char) -> bool {
    '0' <= c <= '7'
}

pub open spec fn is_hex_digit(c: char) -> bool {
    ||| '0' <= c <= '9'
    ||| 'a' <= c <= 'f'
    ||| 'A' <= c <= 'F'
}

/// The value of one hexadecimal (hence also octal) digit.
pub open spec fn digit_value(c: char) -> int {
    if '0' <= c <= '9' {
        c as int - '0' as int
    } else if 'a' <= c <= 'f' {
        c as int - 'a' as int + 10
    } else {
        c as int - 'A' as int + 10
    }
}

/// The number that the digits `d` write in base `radix`, most significant first.
pub open spec fn digits_value(d: Seq<char>, radix: int) -> int
    decreases d.len(),
{
    if d.len() == 0 {
        0
    } else {
        digits_value(d.drop_last(), radix) * radix + digit_value(d.last())
    }
}

pub open spec fn all_hex_digits(d: Seq<char>) -> bool {
    forall|i: int| 0 <= i < d.len() ==> is_hex_digit(#[trigger] d[i])
}

/// The character that a field of hexadecimal digits denotes: none where the
/// field is empty, holds a non-digit, or denotes no scalar value.
pub open spec fn hex_field_char(d: Seq<char>) -> Option<char> {
    if d.len() > 0 && all_hex_digits(d) && is_scalar_value(digits_value(d, 16)) {
        Some(char_of(digits_value(d, 16)))
    } else {
        None
    }
}

/// The character that a one-letter escape `\c` stands for.
pub open spec fn named_escape(c: char) -> Option<char> {
    if c == 'b' {
        Some('\u{8}')
    } else if c == 'f' {
        Some('\u{c}')
    } else if c == 'n' {
        Some('\n')
    } else if c == 'r' {
        Some('\r')
    } else if c == 't' {
        Some('\t')
    } else if c == '\'' {
        Some('\'')
    } else if c == '"' {
        Some('"')
    } else if c == '\\' {
        Some('\\')
    } else {
        None
    }
}

/// The position of the first `}` in `t` at or after `k`.
pub open spec fn close_brace_from(t: Seq<char>, k: int) -> Option<int>
    decreases t.len() - k,
{
    if k < 0 || k >= t.len() {
        None
    } else if t[k] == '}' {
        Some(k)
    } else {
        close_brace_from(t, k + 1)
    }
}

/// The unicode escape whose text after `\u` starts `t`: the character and
/// how many characters of `t` it takes. Either `{digits}` or four digits.
pub open spec fn unicode_unit(t: Seq<char>) -> Option<(char, int)> {
    if t.len() > 0 && t[0] == '{' {
        match close_brace_from(t, 1) {
            Some(j) => match hex_field_char(t.subrange(1, j)) {
                Some(c) => Some((c, j + 1)),
                None => None,
            },
            None => None,
        }
    } else if t.len() >= 4 {
        match hex_field_char(t.take(4)) {
            Some(c) => Some((c, 4)),
            None => None,
        }
    } else {
        None
    }
}

/// The byte escape whose text after `\x` starts `t`: two hexadecimal digits.
pub open spec fn byte_unit(t: Seq<char>) -> Option<(char, int)> {
    if t.len() >= 2 {
        match hex_field_char(t.take(2)) {
            Some(c) => Some((c, 2)),
            None => None,
        }
    } else {
        None
    }
}

/// How many octal digits follow the leading digit `d` of an octal escape
/// whose remaining text starts `t`: up to two after `0`..`3`, up to one after
/// `4`..`7`, taken while they are octal digits.
pub open spec fn octal_extra_digits(d: char, t: Seq<char>) -> int {
    if t.len() > 0 && is_octal_digit(t[0]) {
        if d <= '3' && t.len() > 1 && is_octal_digit(t[1]) {
            2
        } else {
            1
        }
    } else {
        0
    }
}

/// The octal escape with leading digit `d` whose remaining text starts `t`:
/// the character and how many characters of `t` it takes.
pub open spec fn octal_unit(d: char, t: Seq<char>) -> (char, int) {
    let n = octal_extra_digits(d, t);
    (char_of(digits_value(seq![d] + t.take(n), 8)), n)
}

/// The unit at the front of a non-empty `s`: the character it decodes to and
/// its length, or none where it is no valid escape.
pub open spec fn front_unit(s: Seq<char>) -> Option<(char, int)>
    recommends
        s.len() > 0,
{
    if s[0] != '\\' {
        Some((s[0], 1))
    } else if s.len() < 2 {
        None
    } else {
        let sel = s[1];
        let t = s.skip(2);
        if named_escape(sel) is Some {
            Some((named_escape(sel)->0, 2))
        } else if sel == 'u' {
            match unicode_unit(t) {
                Some((c, n)) => Some((c, n + 2)),
                None => None,
            }
        } else if sel == 'x' {
            match byte_unit(t) {
                Some((c, n)) => Some((c, n + 2)),
                None => None,
            }
        } else if is_octal_digit(sel) {
            let (c, n) = octal_unit(sel, t);
            Some((c, n + 2))
        } else {
            None
        }
    }
}

/// The decoded text of `s`, or none where any unit of it fails.
pub open spec fn decode(s: Seq<char>) -> Option<Seq<char>>
    decreases s.len(),
    via decode_decreases
{
    if s.len() == 0 {
        Some(Seq::empty())
    } else {
        match front_unit(s) {
            Some((c, n)) => match decode(s.skip(n)) {
                Some(rest) => Some(seq![c] + rest),
                None => None,
            },
            None => None,
        }
    }
}

#[via_fn]
proof fn decode_decreases(s: Seq<char>) {
    if s.len() > 0 {
        lemma_front_unit_len(s);
    }
}

/// A closing brace found at or after `k` lies at or after `k`, inside `t`.
pub proof fn lemma_close_brace_bounds(t: Seq<char>, k: int)
    ensures
        close_brace_from(t, k) matches Some(j) ==> 0 <= k <= j < t.len() && t[j] == '}',
    decreases t.len() - k,
{
    if 0 <= k < t.len() && t[k] != '}' {
        lemma_close_brace_bounds(t, k + 1);
    }
}

/// Each unit takes at least one character and no more than there are.
pub proof fn lemma_front_unit_len(s: Seq<char>)
    requires
        s.len() > 0,
    ensures
        front_unit(s) matches Some((c, n)) ==> 0 < n <= s.len(),
{
    lemma_close_brace_bounds(s.skip(2), 1);
}

} // verus!
