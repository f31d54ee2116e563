use vstd::prelude::*;
use vstd::utf8::{decode_utf8, valid_utf8};

use crate::grammar::{nat_text, Fault};

verus! {

pub const NO_COLON: &'static str = "missing length `:` delimiter for bencoded string value.";

pub const BAD_LENGTH: &'static str = "invalid length value provided for bencoded string value.";

pub const BAD_LENGTH_PREFIX: &'static str = "invalid length value `";

pub const BAD_LENGTH_SUFFIX: &'static str = "` provided for bencoded string value.";

pub const OVERRUN_PREFIX: &'static str = "provided string value's length `";

pub const OVERRUN_MIDDLE: &'static str = "` exceeds remaining input length `";

pub const OVERRUN_SUFFIX: &'static str = "`.";

pub const NO_INT_END: &'static str = "missing ending `e` delimiter for bencoded integer value.";

pub const INT_NOT_UTF8: &'static str = "Invalid UTF-8 sequence in bencoded integer value.";

pub const NEGATIVE_ZERO: &'static str =
    "invalid bencoded value `-0` found when parsing to integer value, expects valid `i64` value.";

pub const BAD_INT_PREFIX: &'static str =
    "expected valid `i64` value when parsing bencoded data to integer value, received `";

pub const BAD_INT_SUFFIX: &'static str = "`.";

pub const NO_LIST_END: &'static str = "missing ending `e` delimiter for bencoded list.";

pub const NO_DICT_END: &'static str = "missing ending `e` delimiter for bencoded dictionary.";

pub const BAD_KEY: &'static str =
    "bencoded dictionary must contain valid `string` data type for `key` value.";

pub const BAD_KEY_PREFIX: &'static str =
    "bencoded dictionary must contain valid `string` data type for `key` value, received `";

pub const BAD_KEY_SUFFIX: &'static str = "`.";

pub const NO_VALUE: &'static str = "missing value for key in bencoded dictionary.";

/// The decimal digits of `n` as text.
pub open spec fn decimal(n: nat) -> Seq<char> {
    nat_text(n).map_values(|b: u8| b as char)
}

/// `token` as text between `prefix` and `suffix`, or `fallback` where the
/// token is not UTF-8.
pub open spec fn quoted(prefix: Seq<char>, token: Seq<u8>, suffix: Seq<char>, fallback: Seq<char>) -> Seq<char> {
    if valid_utf8(token) {
        prefix + decode_utf8(token) + suffix
    } else {
        fallback
    }
}

/// The message for a length token that is not a number.
pub open spec fn bad_length_message(token: Seq<u8>) -> Seq<char> {
    quoted(BAD_LENGTH_PREFIX@, token, BAD_LENGTH_SUFFIX@, BAD_LENGTH@)
}

/// The message for a byte string longer than the input left.
pub open spec fn overrun_text(declared: nat, available: nat) -> Seq<char> {
    OVERRUN_PREFIX@ + decimal(declared) + OVERRUN_MIDDLE@ + decimal(available) + OVERRUN_SUFFIX@
}

/// The message for an integer token that is not a canonical 64-bit literal.
pub open spec fn bad_int_message(token: Seq<u8>) -> Seq<char> {
    if token == seq![45u8, 48] {
        NEGATIVE_ZERO@
    } else {
        quoted(BAD_INT_PREFIX@, token, BAD_INT_SUFFIX@, INT_NOT_UTF8@)
    }
}

/// The message for a dictionary key, written as `token`, that is not a byte string.
pub open spec fn bad_key_message(token: Seq<u8>) -> Seq<char> {
    quoted(BAD_KEY_PREFIX@, token, BAD_KEY_SUFFIX@, BAD_KEY@)
}

/// Why decoding failed.
#[derive(Debug, PartialEq)]
pub enum BencodeError {
    /// The first byte names no bencoded type.
    UnknownValue(u8),
    /// Malformed input, with a description.
    DataFormat(String),
    /// The input ended where a value was expected.
    UnexpectedEnd,
}

impl BencodeError {
    pub open spec fn fault(&self) -> Fault {
        match self {
            BencodeError::UnknownValue(c) => Fault::UnknownValue(*c),
            BencodeError::DataFormat(s) => Fault::DataFormat(s@),
            BencodeError::UnexpectedEnd => Fault::UnexpectedEnd,
        }
    }
}

pub(crate) fn data_format(msg: &str) -> (e: BencodeError)
    ensures
        e == BencodeError::DataFormat(e->DataFormat_0),
        e->DataFormat_0@ == msg@,
{
    BencodeError::DataFormat(String::from_str(msg))
}

/// Relies on `std::str::from_utf8`, which accepts exactly the valid UTF-8
/// byte strings.
#[verifier::external_body]
pub(crate) fn text_of(b: &[u8]) -> (r: Option<String>)
    ensures
        r is Some <==> valid_utf8(b@),
        r matches Some(s) ==> s@ == decode_utf8(b@),
{
    match std::str::from_utf8(b) {
        Ok(s) => Some(s.to_string()),
        Err(_) => None,
    }
}

/// `token` as text between `prefix` and `suffix`, or `fallback` where the
/// token is not UTF-8.
pub(crate) fn quote(prefix: &str, token: &[u8], suffix: &str, fallback: &str) -> (r: String)
    ensures
        r@ == quoted(prefix@, token@, suffix@, fallback@),
{
    match text_of(token) {
        Some(s) => {
            let mut r = String::from_str(prefix);
            r.append(s.as_str());
            r.append(suffix);
            r
        },
        None => String::from_str(fallback),
    }
}

/// Relies on `ToString` for `u64`, which writes the decimal digits without
/// leading zeros.
#[verifier::external_body]
fn decimal_string(n: u64) -> (r: String)
    ensures
        r@ == decimal(n as nat),
{
    n.to_string()
}

/// The message for a byte string of `declared` bytes where only `available`
/// remain.
pub(crate) fn overrun_message(declared: u64, available: usize) -> (r: String)
    ensures
        r@ == overrun_text(declared as nat, available as nat),
{
    let d = decimal_string(declared);
    let a = decimal_string(available as u64);
    let mut r = String::from_str(OVERRUN_PREFIX);
    r.append(d.as_str());
    r.append(OVERRUN_MIDDLE);
    r.append(a.as_str());
    r.append(OVERRUN_SUFFIX);
    r
}

} // verus!
