//! Cell values: a cell's text becomes a number when it reads as an `i64`, and text otherwise.
use vstd::prelude::*;

use crate::text::{chars_of, string_from_chars};

verus! {

/// An ASCII decimal digit.
pub open spec fn is_digit(c: char) -> bool {
    '0' <= c && c <= '9'
}

/// Value of the decimal digit `c`.
pub open spec fn digit_value(c: char) -> nat {
    (c as int - '0' as int) as nat
}

/// Every character of `s` is a decimal digit.
pub open spec fn all_digits(s: Seq<char>) -> bool {
    forall|i: int| 0 <= i < s.len() ==> is_digit(#[trigger] s[i])
}

/// The number that the digit string `s` denotes.
pub open spec fn digits_value(s: Seq<char>) -> nat
    decreases s.len(),
{
    if s.len() == 0 {
        0
    } else {
        digits_value(s.drop_last()) * 10 + digit_value(s.last())
    }
}

/// `s` read as an `i64` the way `str::parse::<i64>` reads it: an optional `+` or
/// `-`, then at least one decimal digit and nothing else, with a value in range.
pub open spec fn parse_i64(s: Seq<char>) -> Option<i64> {
    let signed = s.len() > 0 && (s[0] == '+' || s[0] == '-');
    let negative = s.len() > 0 && s[0] == '-';
    let body = if signed {
        s.drop_first()
    } else {
        s
    };
    let v: int = if negative {
        -(digits_value(body) as int)
    } else {
        digits_value(body) as int
    };
    if body.len() > 0 && all_digits(body) && i64::MIN <= v <= i64::MAX {
        Some(v as i64)
    } else {
        None
    }
}

proof fn lemma_digits_value_prefix(s: Seq<char>, k: int)
    requires
        0 <= k <= s.len(),
        all_digits(s),
    ensures
        digits_value(s.take(k)) <= digits_value(s),
    decreases s.len(),
{
    if k < s.len() {
        assert(s.drop_last().take(k) =~= s.take(k));
        lemma_digits_value_prefix(s.drop_last(), k);
    } else {
        assert(s.take(k) =~= s);
    }
}

/// Reads `s` as an `i64`, as `str::parse::<i64>` does.
pub fn parse_i64_chars(s: &[char]) -> (res: Option<i64>)
    ensures
        res == parse_i64(s@),
{
    let n = s.len();
    let signed = n > 0 && (s[0] == '+' || s[0] == '-');
    let negative = n > 0 && s[0] == '-';
    let start: usize = if signed { 1 } else { 0 };
    let ghost body = if signed { s@.drop_first() } else { s@ };
    assert(body =~= s@.subrange(start as int, n as int));
    if start >= n {
        return None;
    }
    let limit: u64 = if negative { 9223372036854775808u64 } else { 9223372036854775807u64 };
    let mut acc: u64 = 0;
    let mut i: usize = start;
    while i < n
        invariant
            n == s@.len(),
            start <= i <= n,
            body == s@.subrange(start as int, n as int),
            all_digits(body.take(i - start)),
            acc as nat == digits_value(body.take(i - start)),
            acc <= limit,
            limit == if negative { 9223372036854775808u64 } else { 9223372036854775807u64 },
            signed == (s@.len() > 0 && (s@[0] == '+' || s@[0] == '-')),
            negative == (s@.len() > 0 && s@[0] == '-'),
            start == if signed { 1usize } else { 0usize },
            body == if signed { s@.drop_first() } else { s@ },
        decreases n - i,
    {
        let c = s[i];
        assert(body[i - start] == c);
        if !('0' <= c && c <= '9') {
            assert(!all_digits(body));
            return None;
        }
        let d: u64 = (c as u64) - 48;
        let ghost prev = body.take(i - start);
        assert(body.take(i - start + 1).drop_last() =~= prev);
        if acc > (limit - d) / 10 {
            proof {
                assert(acc * 10 + d > limit) by (nonlinear_arith)
                    requires acc > (limit - d) / 10, d <= limit;
                assert(digit_value(c) == d);
                assert(digits_value(body.take(i - start + 1)) == acc * 10 + d);
                if all_digits(body) {
                    lemma_digits_value_prefix(body, i - start + 1);
                }
            }
            return None;
        }
        assert(acc * 10 + d <= limit) by (nonlinear_arith)
            requires acc <= (limit - d) / 10, d <= limit;
        acc = acc * 10 + d;
        i = i + 1;
    }
    assert(body.take(n - start) =~= body);
    if negative {
        if acc == 9223372036854775808u64 {
            Some(i64::MIN)
        } else {
            Some(-(acc as i64))
        }
    } else {
        Some(acc as i64)
    }
}

/// What a cell holds: an integer, or text.
#[derive(Debug, PartialEq, Eq)]
pub enum CellValue {
    Number(i64),
    Text(String),
}

/// The mathematical content of a [`CellValue`].
pub enum CellView {
    Number(i64),
    Text(Seq<char>),
}

impl View for CellValue {
    type V = CellView;

    open spec fn view(&self) -> CellView {
        match self {
            CellValue::Number(n) => CellView::Number(*n),
            CellValue::Text(t) => CellView::Text(t@),
        }
    }
}

/// The value that the text `s` gives a cell: none for empty text, a number when
/// `s` reads as an `i64`, and the text itself otherwise.
pub open spec fn cell_value_of(s: Seq<char>) -> Option<CellView> {
    if s.len() == 0 {
        None
    } else {
        match parse_i64(s) {
            Some(n) => Some(CellView::Number(n)),
            None => Some(CellView::Text(s)),
        }
    }
}

impl CellValue {
    /// A copy of this value.
    pub fn duplicate(&self) -> (res: CellValue)
        ensures
            res@ == self@,
    {
        match self {
            CellValue::Number(n) => CellValue::Number(*n),
            CellValue::Text(t) => CellValue::Text(t.clone()),
        }
    }

    /// The value of a cell whose text is `s` (none when `s` is empty).
    pub fn from_str(s: &str) -> (res: Option<CellValue>)
        ensures
            match res {
                Some(v) => cell_value_of(s@) == Some(v@),
                None => cell_value_of(s@) is None,
            },
    {
        let chars = chars_of(s);
        Self::from_chars(&chars)
    }

    /// The value of a cell whose text has the characters `s`.
    pub fn from_chars(s: &[char]) -> (res: Option<CellValue>)
        ensures
            match res {
                Some(v) => cell_value_of(s@) == Some(v@),
                None => cell_value_of(s@) is None,
            },
    {
        if s.len() == 0 {
            return None;
        }
        match parse_i64_chars(s) {
            Some(n) => Some(CellValue::Number(n)),
            None => Some(CellValue::Text(string_from_chars(s))),
        }
    }
}

} // verus!
