use unescape::unescape;

fn dec(s: &str) -> Option<String> {
    unescape(s)
}

#[test]
fn empty_input_decodes_to_empty() {
    assert_eq!(dec(""), Some(String::new()));
}

#[test]
fn text_without_backslash_is_unchanged() {
    for s in ["hello", "a b\tc", "ünïcödé 😀", "{}[]'\"", "x\ny\r"] {
        assert_eq!(dec(s), Some(s.to_string()));
    }
}

#[test]
fn named_escapes_decode_to_one_character() {
    let cases = [
        ("\\b", '\u{0008}'),
        ("\\f", '\u{000C}'),
        ("\\n", '\u{000A}'),
        ("\\r", '\u{000D}'),
        ("\\t", '\u{0009}'),
        ("\\'", '\''),
        ("\\\"", '"'),
        ("\\\\", '\\'),
    ];
    for (input, expected) in cases {
        assert_eq!(dec(input), Some(expected.to_string()));
    }
}

#[test]
fn hex_byte_escapes() {
    assert_eq!(dec("\\x41"), Some("A".to_string()));
    assert_eq!(dec("\\x1b"), Some("\u{1b}".to_string()));
    assert_eq!(dec("\\xff"), Some("\u{ff}".to_string()));
    assert_eq!(dec("\\xFF"), Some("\u{ff}".to_string()));
    assert_eq!(dec("\\x414"), Some("A4".to_string()));
}

#[test]
fn hex_byte_escape_failures() {
    assert_eq!(dec("\\x4"), None);
    assert_eq!(dec("\\x"), None);
    assert_eq!(dec("\\xzz"), None);
    assert_eq!(dec("\\x4g"), None);
    assert_eq!(dec("\\x+4"), None);
}

#[test]
fn octal_escapes() {
    assert_eq!(dec("\\101"), Some("A".to_string()));
    assert_eq!(dec("\\0"), Some("\u{0}".to_string()));
    assert_eq!(dec("\\377"), Some("\u{ff}".to_string()));
    assert_eq!(dec("\\7"), Some("\u{7}".to_string()));
}

#[test]
fn octal_digit_count_depends_on_leading_digit() {
    // After 0..3 up to two more digits; after 4..7 at most one.
    assert_eq!(dec("\\1234"), Some("S4".to_string()));
    assert_eq!(dec("\\400"), Some(" 0".to_string()));
    assert_eq!(dec("\\777"), Some("?7".to_string()));
    assert_eq!(dec("\\08"), Some("\u{0}8".to_string()));
    assert_eq!(dec("\\12x"), Some("\u{a}x".to_string()));
    assert_eq!(dec("\\8"), None);
}

#[test]
fn unicode_escapes() {
    assert_eq!(dec("\\u0041"), Some("A".to_string()));
    assert_eq!(dec("\\u{1F600}"), Some("\u{1F600}".to_string()));
    assert_eq!(dec("\\u{41}"), Some("A".to_string()));
    assert_eq!(dec("\\u{0000041}"), Some("A".to_string()));
    assert_eq!(dec("\\u{10FFFF}"), Some("\u{10FFFF}".to_string()));
    assert_eq!(dec("\\u00e9x"), Some("éx".to_string()));
    assert_eq!(dec("\\u{41}}"), Some("A}".to_string()));
}

#[test]
fn unicode_escape_failures() {
    assert_eq!(dec("\\uD800"), None);
    assert_eq!(dec("\\u{DFFF}"), None);
    assert_eq!(dec("\\u{}"), None);
    assert_eq!(dec("\\u{zz}"), None);
    assert_eq!(dec("\\u{110000}"), None);
    assert_eq!(dec("\\u{FFFFFFFFFFFF}"), None);
    assert_eq!(dec("\\u{41"), None);
    assert_eq!(dec("\\u004"), None);
    assert_eq!(dec("\\u"), None);
    assert_eq!(dec("\\u{+41}"), None);
}

#[test]
fn trailing_backslash_and_unknown_selector_fail() {
    assert_eq!(dec("\\"), None);
    assert_eq!(dec("abc\\"), None);
    assert_eq!(dec("\\q"), None);
    assert_eq!(dec("ok\\a"), None);
}

#[test]
fn failure_anywhere_gives_nothing() {
    assert_eq!(dec("good text \\n then \\q"), None);
    assert_eq!(dec("\\x41\\x4"), None);
}

#[test]
fn mixed_text_and_escapes() {
    assert_eq!(
        dec("say \\\"hi\\\"\\n\\tto \\u{e9}t\\xe9 \\101"),
        Some("say \"hi\"\n\tto été A".to_string())
    );
}

#[test]
fn decoding_undoes_escape_default() {
    let samples = [
        "",
        "plain",
        "tab\there\nnew\rline",
        "quotes ' \" and \\ backslash",
        "\u{0}\u{1b}\u{7f}",
        "héllo wörld",
        "emoji 😀 and \u{10FFFF}",
        "{braces} }{",
    ];
    for s in samples {
        let escaped: String = s.escape_default().collect();
        assert_eq!(dec(&escaped), Some(s.to_string()));
    }
}
