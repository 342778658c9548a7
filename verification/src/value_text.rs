//! The text form of a measured value.
//!
//! A sample's value is kept as the decimal text that the store holds. This module
//! says which texts denote a value, by the grammar (letters match in either case)
//!
//! ```text
//! Value    ::= Sign? ( "inf" | "infinity" | "nan" | Number )
//! Number   ::= ( Digit+ | Digit+ "." Digit* | Digit* "." Digit+ ) Exponent?
//! Exponent ::= "e" Sign? Digit+
//! Sign     ::= "+" | "-"
//! ```
//!
//! and decides it for a given byte string.

use vstd::prelude::*;
use crate::decimal::is_digit;

verus! {

/// The byte `.`.
pub const POINT: u8 = 46u8;

/// True of the bytes `+` and `-`.
pub open spec fn is_sign(b: u8) -> bool {
    b == 43 || b == 45
}

/// True of the bytes `e` and `E`.
pub open spec fn is_exponent_mark(b: u8) -> bool {
    b == 101 || b == 69
}

/// An upper-case ASCII letter turned to lower case; every other byte as it is.
pub open spec fn lower(b: u8) -> u8 {
    if 65 <= b <= 90 {
        (b + 32) as u8
    } else {
        b
    }
}

/// True when `text`, letters taken in lower case, is `word`.
pub open spec fn spells(text: Seq<u8>, word: Seq<u8>) -> bool {
    &&& text.len() == word.len()
    &&& forall|i: int| 0 <= i < text.len() ==> lower(#[trigger] text[i]) == word[i]
}

/// The word `inf`.
pub open spec fn word_inf() -> Seq<u8> {
    seq![105u8, 110u8, 102u8]
}

/// The word `infinity`.
pub open spec fn word_infinity() -> Seq<u8> {
    seq![105u8, 110u8, 102u8, 105u8, 110u8, 105u8, 116u8, 121u8]
}

/// The word `nan`.
pub open spec fn word_nan() -> Seq<u8> {
    seq![110u8, 97u8, 110u8]
}

/// True when `text` names one of the values that are not numbers written out:
/// an infinity or a not-a-number.
pub open spec fn is_special(text: Seq<u8>) -> bool {
    spells(text, word_inf()) || spells(text, word_infinity()) || spells(text, word_nan())
}

/// Where the run of digits that starts at `from` ends: the first position at or
/// after `from` that holds no digit, or the length of `text`.
pub open spec fn digits_end(text: Seq<u8>, from: int) -> int
    decreases text.len() - from,
{
    if 0 <= from < text.len() && is_digit(text[from]) {
        digits_end(text, from + 1)
    } else {
        from
    }
}

/// Where the digits of an exponent start, given the position of its mark: behind
/// the mark and an optional sign.
pub open spec fn exponent_digits_start(text: Seq<u8>, mark: int) -> int {
    if mark + 1 < text.len() && is_sign(text[mark + 1]) {
        mark + 2
    } else {
        mark + 1
    }
}

/// True when `text` from `at` on is empty or an exponent.
pub open spec fn is_exponent_or_end(text: Seq<u8>, at: int) -> bool {
    ||| at == text.len()
    ||| {
        let start = exponent_digits_start(text, at);
        &&& 0 <= at < text.len()
        &&& is_exponent_mark(text[at])
        &&& start < text.len()
        &&& digits_end(text, start) == text.len()
    }
}

/// True when `text` from `at` on is a number written out: digits with at most one
/// point among them, at least one digit in all, then an optional exponent.
pub open spec fn is_number(text: Seq<u8>, at: int) -> bool {
    let whole_end = digits_end(text, at);
    if whole_end < text.len() && text[whole_end] == POINT {
        let fraction_end = digits_end(text, whole_end + 1);
        (whole_end - at) + (fraction_end - whole_end - 1) > 0 && is_exponent_or_end(
            text,
            fraction_end,
        )
    } else {
        whole_end > at && is_exponent_or_end(text, whole_end)
    }
}

/// How many bytes of `text` a leading sign takes: one or none.
pub open spec fn sign_len(text: Seq<u8>) -> int {
    if text.len() > 0 && is_sign(text[0]) {
        1
    } else {
        0
    }
}

/// True when `text` denotes a value.
pub open spec fn is_value_text(text: Seq<u8>) -> bool {
    is_special(text.skip(sign_len(text))) || is_number(text, sign_len(text))
}

/// Turns an upper-case ASCII letter to lower case.
pub fn to_lower(b: u8) -> (r: u8)
    ensures
        r == lower(b),
{
    if 65 <= b && b <= 90 {
        b + 32
    } else {
        b
    }
}

/// Finds the end of the run of digits that starts at `from`.
pub fn skip_digits(text: &[u8], from: usize) -> (end: usize)
    requires
        from <= text@.len(),
    ensures
        end == digits_end(text@, from as int),
        from <= end <= text@.len(),
{
    let n: usize = text.len();
    let mut i: usize = from;
    while i < n && 48 <= text[i] && text[i] <= 57
        invariant
            from <= i <= n,
            n == text@.len(),
            digits_end(text@, i as int) == digits_end(text@, from as int),
        decreases n - i,
    {
        i = i + 1;
    }
    i
}

/// Decides whether `text` from `at` on names an infinity or a not-a-number.
pub fn names_special(text: &[u8], at: usize) -> (r: bool)
    requires
        at <= text@.len(),
    ensures
        r == is_special(text@.skip(at as int)),
{
    let total: usize = text.len();
    let n: usize = total - at;
    let ghost rest = text@.skip(at as int);
    if n == 3 {
        let a: u8 = to_lower(text[at]);
        let b: u8 = to_lower(text[at + 1]);
        let c: u8 = to_lower(text[at + 2]);
        assert(rest[0] == text@[at as int] && rest[1] == text@[at + 1] && rest[2] == text@[at
            + 2]);
        (a == 105 && b == 110 && c == 102) || (a == 110 && b == 97 && c == 110)
    } else if n == 8 {
        let mut i: usize = 0;
        let word: [u8; 8] = [105u8, 110u8, 102u8, 105u8, 110u8, 105u8, 116u8, 121u8];
        assert(word@ =~= word_infinity());
        while i < 8
            invariant
                0 <= i <= 8,
                at + 8 == total,
                total == text@.len(),
                rest == text@.skip(at as int),
                word@ == word_infinity(),
                forall|j: int| 0 <= j < i ==> lower(#[trigger] rest[j]) == word_infinity()[j],
            decreases 8 - i,
        {
            if to_lower(text[at + i]) != word[i] {
                assert(rest[i as int] == text@[at + i]);
                return false;
            }
            assert(rest[i as int] == text@[at + i]);
            i = i + 1;
        }
        true
    } else {
        false
    }
}

/// Decides whether `text` from `at` on is empty or an exponent.
pub fn reads_exponent_or_end(text: &[u8], at: usize) -> (r: bool)
    requires
        at <= text@.len(),
    ensures
        r == is_exponent_or_end(text@, at as int),
{
    let n: usize = text.len();
    if at == n {
        return true;
    }
    if text[at] != 101 && text[at] != 69 {
        return false;
    }
    let start: usize = if at + 1 < n && (text[at + 1] == 43 || text[at + 1] == 45) {
        at + 2
    } else {
        at + 1
    };
    if start >= n {
        return false;
    }
    skip_digits(text, start) == n
}

/// Decides whether `text` denotes a value.
pub fn denotes_value(text: &[u8]) -> (r: bool)
    ensures
        r == is_value_text(text@),
{
    let n: usize = text.len();
    let at: usize = if n > 0 && (text[0] == 43 || text[0] == 45) { 1 } else { 0 };
    if names_special(text, at) {
        return true;
    }
    let whole_end: usize = skip_digits(text, at);
    if whole_end < n && text[whole_end] == POINT {
        let fraction_end: usize = skip_digits(text, whole_end + 1);
        (whole_end - at) + (fraction_end - whole_end - 1) > 0 && reads_exponent_or_end(
            text,
            fraction_end,
        )
    } else {
        whole_end > at && reads_exponent_or_end(text, whole_end)
    }
}

} // verus!
