use xlxscraper::row::{chars_eq, chars_lt, row_set};
use xlxscraper::cell::CellValue;
use xlxscraper::text::{
    chars_of, contains_chars, copy_chars, is_whitespace, push_all, push_decimal, trim_chars,
};

fn cs(s: &str) -> Vec<char> {
    s.chars().collect()
}

#[test]
fn trim_removes_unicode_whitespace_at_both_ends() {
    assert_eq!(trim_chars(&cs("  a b \t\n")), cs("a b"));
    assert_eq!(trim_chars(&cs("\u{a0}\u{3000}x\u{2028}")), cs("x"));
    assert_eq!(trim_chars(&cs(" \n\t ")), cs(""));
    assert_eq!(trim_chars(&cs("")), cs(""));
}

#[test]
fn trim_agrees_with_std() {
    for s in ["  W1AW ", "\u{85}x", "x\u{200b}", "\u{feff}y", " a\u{202f}", "\u{1680}z\u{205f}"] {
        assert_eq!(trim_chars(&cs(s)), cs(s.trim()), "{s:?}");
    }
}

#[test]
fn whitespace_matches_std() {
    for c in ['\t', '\n', '\u{b}', '\u{c}', '\r', ' ', '\u{85}', '\u{a0}', '\u{2009}', 'a', '\u{200b}', '\u{feff}', '_'] {
        assert_eq!(is_whitespace(c), c.is_whitespace(), "{c:?}");
    }
}

#[test]
fn substring_search() {
    assert!(contains_chars(&cs("table table-striped"), &cs("table")));
    assert!(contains_chars(&cs("mytable"), &cs("table")));
    assert!(!contains_chars(&cs("tab le"), &cs("table")));
    assert!(contains_chars(&cs("abc"), &cs("")));
    assert!(!contains_chars(&cs("ab"), &cs("abc")));
}

#[test]
fn decimal_digits() {
    let mut out = cs("column_");
    push_decimal(0, &mut out);
    assert_eq!(out, cs("column_0"));
    let mut out = Vec::new();
    push_decimal(1234567890, &mut out);
    assert_eq!(out, cs("1234567890"));
    let mut out = Vec::new();
    push_decimal(usize::MAX, &mut out);
    assert_eq!(out, cs(&usize::MAX.to_string()));
}

#[test]
fn char_conversions() {
    assert_eq!(chars_of("héllo"), cs("héllo"));
    assert_eq!(copy_chars(&cs("ab")), cs("ab"));
    let mut v = cs("ab");
    push_all(&mut v, &cs("cd"));
    assert_eq!(v, cs("abcd"));
}

#[test]
fn key_order_is_code_point_order() {
    assert!(chars_lt(&cs("Callsign"), &cs("Flag")));
    assert!(chars_lt(&cs("Flag"), &cs("Flag_img")));
    assert!(!chars_lt(&cs("Flag"), &cs("Flag")));
    assert!(chars_lt(&cs(""), &cs("a")));
    assert!(chars_lt(&cs("Z"), &cs("a")));
    for (a, b) in [("é", "z"), ("ab", "b"), ("abc", "abd"), ("x", "")] {
        assert_eq!(chars_lt(&cs(a), &cs(b)), a < b, "{a} {b}");
    }
    assert!(chars_eq(&cs("x"), &cs("x")));
    assert!(!chars_eq(&cs("x"), &cs("xy")));
}

#[test]
fn row_set_keeps_keys_sorted_and_overwrites() {
    let mut row: Vec<(Vec<char>, CellValue)> = Vec::new();
    row_set(&mut row, cs("b"), CellValue::Number(1));
    row_set(&mut row, cs("a"), CellValue::Number(2));
    row_set(&mut row, cs("c"), CellValue::Number(3));
    row_set(&mut row, cs("b"), CellValue::Text("B".to_string()));
    let keys: Vec<Vec<char>> = row.iter().map(|e| e.0.clone()).collect();
    assert_eq!(keys, vec![cs("a"), cs("b"), cs("c")]);
    assert_eq!(row[1].1, CellValue::Text("B".to_string()));
}
