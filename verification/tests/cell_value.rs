use xlxscraper::cell::CellValue;

#[test]
fn empty_text_gives_no_value() {
    assert_eq!(CellValue::from_str(""), None);
}

#[test]
fn integers_become_numbers() {
    assert_eq!(CellValue::from_str("42"), Some(CellValue::Number(42)));
    assert_eq!(CellValue::from_str("-7"), Some(CellValue::Number(-7)));
    assert_eq!(CellValue::from_str("+5"), Some(CellValue::Number(5)));
    assert_eq!(CellValue::from_str("007"), Some(CellValue::Number(7)));
    assert_eq!(CellValue::from_str("0"), Some(CellValue::Number(0)));
}

#[test]
fn i64_limits_are_numbers() {
    assert_eq!(
        CellValue::from_str("9223372036854775807"),
        Some(CellValue::Number(i64::MAX))
    );
    assert_eq!(
        CellValue::from_str("-9223372036854775808"),
        Some(CellValue::Number(i64::MIN))
    );
}

#[test]
fn out_of_range_integers_stay_text() {
    assert_eq!(
        CellValue::from_str("9223372036854775808"),
        Some(CellValue::Text("9223372036854775808".to_string()))
    );
    assert_eq!(
        CellValue::from_str("-9223372036854775809"),
        Some(CellValue::Text("-9223372036854775809".to_string()))
    );
}

#[test]
fn other_text_stays_text() {
    for s in ["W1AW", "12a", "-", "+", " 5", "5 ", "1.5", "+-1", "١٢"] {
        assert_eq!(CellValue::from_str(s), Some(CellValue::Text(s.to_string())), "{s}");
    }
}

#[test]
fn leading_zeros_do_not_overflow() {
    assert_eq!(
        CellValue::from_str("0000000000000000000000000001"),
        Some(CellValue::Number(1))
    );
}

#[test]
fn from_chars_agrees_with_from_str() {
    let chars: Vec<char> = "123".chars().collect();
    assert_eq!(CellValue::from_chars(&chars), Some(CellValue::Number(123)));
    assert_eq!(CellValue::from_chars(&[]), None);
}

#[test]
fn duplicate_keeps_the_value() {
    let v = CellValue::Text("x".to_string());
    assert_eq!(v.duplicate(), v);
    assert_eq!(CellValue::Number(3).duplicate(), CellValue::Number(3));
}

#[test]
fn printed_integers_read_back_as_numbers() {
    for n in [0i64, 1, 9, 10, 99, 100, 65535, 1 << 40, i64::MAX, -1, -10, -65535, i64::MIN + 1, i64::MIN] {
        assert_eq!(CellValue::from_str(&n.to_string()), Some(CellValue::Number(n)));
    }
}
