//! The decoder: a cursor over the input's characters that reads one escape
//! unit at a time.
use vstd::prelude::*;
use crate::escapes::{
    all_hex_digits, byte_unit, char_of, close_brace_from, decode, digit_value, digits_value,
    front_unit, hex_field_char, is_hex_digit, is_octal_digit, is_scalar_value, lemma_front_unit_len,
    octal_extra_digits, octal_unit, unicode_unit,
};

verus! {

/// Relies on char::from_u32: a character exactly for scalar values, and that
/// character has the given code point.
pub assume_specification[ char::from_u32 ](i: u32) -> (r: Option<char>)
    ensures
        r is Some <==> is_scalar_value(i as int),
        r matches Some(c) ==> c as u32 == i,
;

/// Relies on String::push: the character is appended at the end.
pub assume_specification[ String::push ](string: &mut String, ch: char)
    ensures
        final(string)@ == old(string)@.push(ch),
;

/// The character `char::from_u32` gives is the one `char_of` names.
proof fn lemma_char_of(c: char, v: u32)
    requires
        c as u32 == v,
    ensures
        c == char_of(v as int),
{
    assert((v as char) as u32 == v);
}

/// The value of a hexadecimal digit, or none for another character.
fn hex_digit(c: char) -> (r: Option<u32>)
    ensures
        r is Some <==> is_hex_digit(c),
        r matches Some(v) ==> v as int == digit_value(c) && v < 16,
{
    if '0' <= c && c <= '9' {
        Some(c as u32 - '0' as u32)
    } else if 'a' <= c && c <= 'f' {
        Some(c as u32 - 'a' as u32 + 10)
    } else if 'A' <= c && c <= 'F' {
        Some(c as u32 - 'A' as u32 + 10)
    } else {
        None
    }
}

/// Reads `chars[start..end]` as a field of hexadecimal digits and gives the
/// character with that code point.
fn hex_field(chars: &Vec<char>, start: usize, end: usize) -> (r: Option<char>)
    requires
        start <= end <= chars.len(),
    ensures
        r == hex_field_char(chars@.subrange(start as int, end as int)),
{
    let ghost d = chars@.subrange(start as int, end as int);
    // The value read so far, held at 0x110000 once it passes the largest
    // scalar value, so that it cannot overflow.
    let mut v: u32 = 0;
    let mut i: usize = start;
    while i < end
        invariant
            start <= i <= end <= chars.len(),
            d == chars@.subrange(start as int, end as int),
            all_hex_digits(d.take(i - start)),
            digits_value(d.take(i - start), 16) <= 0x10FFFF ==> v as int == digits_value(
                d.take(i - start),
                16,
            ),
            digits_value(d.take(i - start), 16) > 0x10FFFF ==> v == 0x110000,
        decreases end - i,
    {
        let ghost p = d.take(i - start);
        let ghost q = d.take(i + 1 - start);
        match hex_digit(chars[i]) {
            Some(x) => {
                assert(q.drop_last() =~= p);
                assert(q.last() == chars@[i as int]);
                assert(digits_value(q, 16) == digits_value(p, 16) * 16 + x);
                if v > 0x10FFFF {
                    v = 0x110000;
                } else {
                    v = v * 16 + x;
                    if v > 0x110000 {
                        v = 0x110000;
                    }
                }
                assert forall|k: int| 0 <= k < q.len() implies is_hex_digit(#[trigger] q[k]) by {
                    if k < p.len() {
                        assert(q[k] == p[k]);
                    }
                }
                i = i + 1;
            },
            None => {
                assert(d[i - start] == chars@[i as int]);
                return None;
            },
        }
    }
    assert(d.take(end - start) =~= d);
    if start == end {
        return None;
    }
    let r = char::from_u32(v);
    if let Some(c) = r {
        proof {
            lemma_char_of(c, v);
        }
    }
    r
}

/// Reads a unicode escape whose text after `\u` starts at `*pos`, and moves
/// `*pos` past it.
fn unescape_unicode(chars: &Vec<char>, pos: &mut usize) -> (r: Option<char>)
    requires
        *old(pos) <= chars.len(),
    ensures
        *final(pos) <= chars.len(),
        match unicode_unit(chars@.skip(*old(pos) as int)) {
            Some((c, n)) => r == Some(c) && *final(pos) == *old(pos) + n,
            None => r is None,
        },
{
    let start = *pos;
    let ghost t = chars@.skip(start as int);
    if start < chars.len() && chars[start] == '{' {
        // The braced form: any number of digits up to the closing brace.
        let mut j: usize = start + 1;
        while j < chars.len() && chars[j] != '}'
            invariant
                start + 1 <= j <= chars.len(),
                t == chars@.skip(start as int),
                close_brace_from(t, 1) == close_brace_from(t, j - start),
            decreases chars.len() - j,
        {
            assert(t[j - start] == chars@[j as int]);
            j = j + 1;
        }
        if j == chars.len() {
            return None;
        }
        assert(t[j - start] == chars@[j as int]);
        assert(t.subrange(1, j - start) =~= chars@.subrange(start + 1, j as int));
        let r = hex_field(chars, start + 1, j);
        *pos = j + 1;
        r
    } else if chars.len() - start >= 4 {
        // The short form: exactly four digits.
        assert(t.take(4) =~= chars@.subrange(start as int, start + 4));
        let r = hex_field(chars, start, start + 4);
        *pos = start + 4;
        r
    } else {
        None
    }
}

/// Reads a byte escape whose text after `\x` starts at `*pos`, and moves
/// `*pos` past it.
fn unescape_byte(chars: &Vec<char>, pos: &mut usize) -> (r: Option<char>)
    requires
        *old(pos) <= chars.len(),
    ensures
        *final(pos) <= chars.len(),
        match byte_unit(chars@.skip(*old(pos) as int)) {
            Some((c, n)) => r == Some(c) && *final(pos) == *old(pos) + n,
            None => r is None,
        },
{
    let start = *pos;
    let ghost t = chars@.skip(start as int);
    if chars.len() - start >= 2 {
        assert(t.take(2) =~= chars@.subrange(start as int, start + 2));
        let r = hex_field(chars, start, start + 2);
        *pos = start + 2;
        r
    } else {
        None
    }
}

/// Takes the character at `*pos` into the octal value being read, if it is an
/// octal digit; says whether it did.
fn push_octal_char(chars: &Vec<char>, pos: &mut usize, value: &mut u32) -> (r: bool)
    requires
        *old(pos) <= chars.len(),
        *old(value) <= 0x1FFF_FFFF,
    ensures
        r == (*old(pos) < chars.len() && is_octal_digit(chars@[*old(pos) as int])),
        r ==> *final(pos) == *old(pos) + 1 && *final(value) == *old(value) * 8 + digit_value(
            chars@[*old(pos) as int],
        ),
        !r ==> *final(pos) == *old(pos) && *final(value) == *old(value),
{
    if *pos < chars.len() {
        let c = chars[*pos];
        if '0' <= c && c <= '7' {
            *value = *value * 8 + (c as u32 - '0' as u32);
            *pos = *pos + 1;
            return true;
        }
    }
    false
}

/// Reads an octal escape whose leading digit `c` has been taken and whose
/// further digits start at `*pos`, and moves `*pos` past it.
fn unescape_octal(c: char, chars: &Vec<char>, pos: &mut usize) -> (r: char)
    requires
        *old(pos) <= chars.len(),
        is_octal_digit(c),
    ensures
        (r, *final(pos) - *old(pos)) == octal_unit(c, chars@.skip(*old(pos) as int)),
        *final(pos) <= chars.len(),
{
    let ghost start = *pos as int;
    let ghost t = chars@.skip(start);
    let mut value: u32 = c as u32 - '0' as u32;
    let ghost v0 = value;
    let mut v1 = value;
    if c <= '3' {
        if push_octal_char(chars, pos, &mut value) {
            v1 = value;
            push_octal_char(chars, pos, &mut value);
        }
    } else {
        push_octal_char(chars, pos, &mut value);
        v1 = value;
    }
    let ghost n = *pos - start;
    proof {
        let d = seq![c] + t.take(n);
        assert(n == octal_extra_digits(c, t));
        assert(d.take(1).drop_last() =~= Seq::<char>::empty());
        assert(digits_value(Seq::<char>::empty(), 8) == 0);
        assert(d.take(1).last() == c);
        assert(digit_value(c) == v0);
        assert(digits_value(d.take(1), 8) == v0);
        if n >= 1 {
            assert(d.take(2).drop_last() =~= d.take(1));
            assert(d.take(2).last() == chars@[start]);
            assert(digits_value(d.take(2), 8) == v1);
        }
        if n == 2 {
            assert(d.take(3).drop_last() =~= d.take(2));
            assert(d.take(3).last() == chars@[start + 1]);
            assert(digits_value(d.take(3), 8) == value);
            assert(d.take(3) =~= d);
        } else if n == 1 {
            assert(d.take(2) =~= d);
        } else {
            assert(d.take(1) =~= d);
        }
        assert(value as int == digits_value(d, 8));
    }
    match char::from_u32(value) {
        Some(r) => {
            proof {
                lemma_char_of(r, value);
            }
            r
        },
        None => {
            // An octal escape holds at most 0o377.
            assert(false);
            '\0'
        },
    }
}

/// Decodes the backslash escapes in `s`: the decoded text, or none where any
/// escape in it is malformed. Nothing is returned of a text that fails.
pub fn unescape(s: &str) -> (r: Option<String>)
    ensures
        match decode(s@) {
            Some(d) => r is Some && r->0@ == d,
            None => r is None,
        },
{
    let mut chars: Vec<char> = Vec::new();
    for c in it: s.chars()
        invariant
            chars@ == it.seq().take(it.index() as int),
    {
        chars.push(c);
    }
    let mut out = String::new();
    let mut pos: usize = 0;
    assert(chars@.skip(0) =~= s@);
    while pos < chars.len()
        invariant
            pos <= chars.len(),
            decode(s@) == match decode(chars@.skip(pos as int)) {
                Some(rest) => Some(out@ + rest),
                None => None,
            },
        decreases chars.len() - pos,
    {
        let ghost p = pos as int;
        let ghost u = chars@.skip(p);
        let c = chars[pos];
        let d: char;
        if c != '\\' {
            d = c;
            pos = pos + 1;
        } else {
            if pos + 1 >= chars.len() {
                return None;
            }
            let selector = chars[pos + 1];
            pos = pos + 2;
            assert(u.skip(2) =~= chars@.skip(pos as int));
            d = match selector {
                'b' => '\u{8}',
                'f' => '\u{c}',
                'n' => '\n',
                'r' => '\r',
                't' => '\t',
                '\'' => '\'',
                '"' => '"',
                '\\' => '\\',
                'u' => match unescape_unicode(&chars, &mut pos) {
                    Some(d) => d,
                    None => return None,
                },
                'x' => match unescape_byte(&chars, &mut pos) {
                    Some(d) => d,
                    None => return None,
                },
                _ => if '0' <= selector && selector <= '7' {
                    unescape_octal(selector, &chars, &mut pos)
                } else {
                    return None;
                },
            };
        }
        proof {
            let n = pos - p;
            assert(front_unit(u) == Some((d, n)));
            lemma_front_unit_len(u);
            assert(u.skip(n) =~= chars@.skip(pos as int));
            match decode(chars@.skip(pos as int)) {
                Some(rest) => {
                    assert(out@.push(d) + rest =~= out@ + (seq![d] + rest));
                },
                None => {},
            }
        }
        out.push(d);
    }
    assert(out@ + Seq::<char>::empty() =~= out@);
    Some(out)
}

} // verus!
