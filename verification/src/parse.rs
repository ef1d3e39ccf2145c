//! Parsing of annotation values into integers and booleans, by std's
//! `FromStr` implementations.

use std::num::ParseIntError;
use std::str::FromStr;
use std::str::ParseBoolError;
use vstd::prelude::*;

verus! {

#[verifier::external_type_specification]
#[verifier::external_body]
pub struct ExParseIntError(ParseIntError);

#[verifier::external_type_specification]
#[verifier::external_body]
pub struct ExParseBoolError(ParseBoolError);

/// Whether `c` is one of the ASCII digits `0` to `9`.
pub open spec fn is_ascii_digit(c: char) -> bool {
    '0' <= c && c <= '9'
}

/// Whether `s` is a non-empty run of ASCII digits.
pub open spec fn is_digit_run(s: Seq<char>) -> bool {
    &&& s.len() > 0
    &&& forall|i: int| 0 <= i < s.len() ==> #[trigger] is_ascii_digit(s[i])
}

/// The number that a run of decimal digits denotes.
pub open spec fn digits_value(s: Seq<char>) -> int
    decreases s.len(),
{
    if s.len() == 0 {
        0
    } else {
        digits_value(s.drop_last()) * 10 + (s.last() as int - '0' as int)
    }
}

/// What `i32::from_str` gives for `s`: an optional `+` or `-` sign followed
/// by a non-empty run of ASCII digits whose value fits in an `i32`; any other
/// text, whitespace included, is an error (`None`).
pub open spec fn spec_parse_i32(s: Seq<char>) -> Option<i32> {
    let negative = s.len() > 0 && s[0] == '-';
    let signed = s.len() > 0 && (s[0] == '-' || s[0] == '+');
    let digits = if signed {
        s.drop_first()
    } else {
        s
    };
    let value = if negative {
        -digits_value(digits)
    } else {
        digits_value(digits)
    };
    if is_digit_run(digits) && i32::MIN <= value && value <= i32::MAX {
        Some(value as i32)
    } else {
        None
    }
}

/// What `bool::from_str` gives for `s`: `true` for the text `true`, `false`
/// for the text `false`, an error (`None`) for anything else.
pub open spec fn spec_parse_bool(s: Seq<char>) -> Option<bool> {
    if s == seq!['t', 'r', 'u', 'e'] {
        Some(true)
    } else if s == seq!['f', 'a', 'l', 's', 'e'] {
        Some(false)
    } else {
        None
    }
}

/// Calls `i32::from_str`. Trusted: std documents that the text must be an
/// optional `+` or `-` followed by ASCII digits only, that anything else
/// (whitespace, underscores, an empty string) is an error, and that a value
/// outside the range of `i32` is an error; `spec_parse_i32` says exactly that.
#[verifier::external_body]
pub(crate) fn parse_i32(s: &str) -> (r: Result<i32, ParseIntError>)
    ensures
        match r {
            Ok(v) => spec_parse_i32(s@) == Some(v),
            Err(_) => spec_parse_i32(s@) is None,
        },
{
    i32::from_str(s)
}

/// Calls `bool::from_str`. Trusted: std documents that the only accepted
/// texts are `true` and `false` and that any other input is an error.
#[verifier::external_body]
pub(crate) fn parse_bool(s: &str) -> (r: Result<bool, ParseBoolError>)
    ensures
        match r {
            Ok(v) => spec_parse_bool(s@) == Some(v),
            Err(_) => spec_parse_bool(s@) is None,
        },
{
    bool::from_str(s)
}

} // verus!
