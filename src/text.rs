//! Conversions from bytes and text to values, through the standard library.

use vstd::prelude::*;
use vstd::utf8::{decode_utf8, valid_utf8};

verus! {

pub open spec fn is_digit(c: char) -> bool {
    '0' <= c && c <= '9'
}

/// The value of a run of decimal digits.
pub open spec fn digits_value(s: Seq<char>) -> int
    decreases s.len(),
{
    if s.len() == 0 {
        0
    } else {
        10 * digits_value(s.drop_last()) + ((s.last() as u32) as int - ('0' as u32) as int)
    }
}

pub open spec fn all_digits(s: Seq<char>) -> bool {
    s.len() > 0 && forall|i: int| 0 <= i < s.len() ==> is_digit(#[trigger] s[i])
}

/// An optional `+` followed by one or more decimal digits.
pub open spec fn unsigned_value(s: Seq<char>) -> Option<int> {
    let d = if s.len() > 0 && s[0] == '+' {
        s.drop_first()
    } else {
        s
    };
    if all_digits(d) {
        Some(digits_value(d))
    } else {
        None
    }
}

/// An optional `+` or `-` followed by one or more decimal digits.
pub open spec fn signed_value(s: Seq<char>) -> Option<int> {
    if s.len() > 0 && s[0] == '-' {
        if all_digits(s.drop_first()) {
            Some(-digits_value(s.drop_first()))
        } else {
            None
        }
    } else {
        unsigned_value(s)
    }
}

/// The size that a text denotes, if it is a decimal that fits in `u64`.
pub open spec fn size_of_text(s: Seq<char>) -> Option<u64> {
    match unsigned_value(s) {
        Some(v) => if v <= u64::MAX {
            Some(v as u64)
        } else {
            None
        },
        None => None,
    }
}

/// The timestamp that a text denotes, if it is a decimal that fits in `i64`.
pub open spec fn timestamp_of_text(s: Seq<char>) -> Option<i64> {
    match signed_value(s) {
        Some(v) => if i64::MIN <= v && v <= i64::MAX {
            Some(v as i64)
        } else {
            None
        },
        None => None,
    }
}

/// Relies on `<u64 as FromStr>::from_str`: an optional `+` and decimal
/// digits, rejected when empty, when another character occurs, or when the
/// value overflows.
#[verifier::external_body]
pub(crate) fn parse_size(s: &String) -> (r: Option<u64>)
    ensures
        r == size_of_text(s@),
{
    s.parse::<u64>().ok()
}

/// Relies on `<i64 as FromStr>::from_str`: an optional `+` or `-` and
/// decimal digits, rejected when empty, when another character occurs, or
/// when the value is out of range.
#[verifier::external_body]
pub(crate) fn parse_timestamp(s: &String) -> (r: Option<i64>)
    ensures
        r == timestamp_of_text(s@),
{
    s.parse::<i64>().ok()
}

/// Relies on `std::str::from_utf8`: it accepts exactly the well-formed UTF-8
/// sequences, and the text holds the characters they encode.
#[verifier::external_body]
pub(crate) fn decode_text(b: &[u8]) -> (r: Option<String>)
    ensures
        match r {
            Some(s) => valid_utf8(b@) && s@ == decode_utf8(b@),
            None => !valid_utf8(b@),
        },
{
    std::str::from_utf8(b).ok().map(|s| s.to_string())
}

} // verus!
