//! The bencode grammar: what a value is, how it is written, and how bytes
//! are read as a value.

use crate::decimal::{canonical_decimal, dec_text, dec_value, is_digit};
use vstd::prelude::*;

verus! {

/// Why a byte string is not bencode.
#[derive(Debug, Clone, Copy, PartialEq, Eq)]
pub enum DecodingErrorKind {
    /// The input ends inside a token.
    UnexpectedEof,
    /// A token starts with a byte that opens none of the four kinds.
    InvalidHeader(u8),
    /// The length of a byte string is not a plain decimal number followed by `:`.
    InvalidLength,
    /// An integer is not `0`, or an optional `-` and digits without a leading zero.
    InvalidInteger,
    /// A dictionary key is not a byte string.
    NonByteStringKey,
    /// A dictionary has two entries with one key; only the strict decoder
    /// minds.
    InvalidDuplicateKey,
}

/// A bencoded value, token by token as it stands in the input: a
/// dictionary holds its entries in the order in which they were written,
/// repeated keys included.
pub enum Value {
    /// A byte string.
    Bytes(Seq<u8>),
    /// An integer, as its decimal text.
    Number(Seq<u8>),
    /// A list.
    List(Seq<Value>),
    /// A dictionary.
    Dict(Seq<(Seq<u8>, Value)>),
}

/// Whether `t` is the text of an integer: `0`, or digits without a leading
/// zero, with an optional `-` in front of a number other than zero.
pub open spec fn int_text_ok(t: Seq<u8>) -> bool {
    ||| canonical_decimal(t)
    ||| (t.len() >= 2 && t[0] == 45 && t[1] != 48 && canonical_decimal(t.skip(1)))
}

/// Whether every integer inside `v` has a well-formed text.
pub open spec fn valid(v: Value) -> bool
    decreases v,
{
    match v {
        Value::Bytes(_) => true,
        Value::Number(t) => int_text_ok(t),
        Value::List(items) => forall|i: int| 0 <= i < items.len() ==> valid(#[trigger] items[i]),
        Value::Dict(entries) => forall|i: int|
            0 <= i < entries.len() ==> valid((#[trigger] entries[i]).1),
    }
}

/// The token of a byte string: its length in decimal, `:`, and the bytes.
pub open spec fn bytes_token(payload: Seq<u8>) -> Seq<u8> {
    dec_text(payload.len()) + seq![58u8] + payload
}

/// The token of an integer: `i`, its text, and `e`.
pub open spec fn number_token(text: Seq<u8>) -> Seq<u8> {
    seq![105u8] + text + seq![101u8]
}

/// The bytes of `v`, every token in the order in which `v` holds it.
pub open spec fn wire(v: Value) -> Seq<u8>
    decreases v, 1int,
{
    match v {
        Value::Bytes(payload) => bytes_token(payload),
        Value::Number(text) => number_token(text),
        Value::List(items) => seq![108u8] + wire_items(items) + seq![101u8],
        Value::Dict(entries) => seq![100u8] + wire_entries(entries) + seq![101u8],
    }
}

/// The tokens of the items of a list, one after the other.
pub open spec fn wire_items(items: Seq<Value>) -> Seq<u8>
    decreases items, 0int,
{
    if items.len() == 0 {
        seq![]
    } else {
        wire_items(items.drop_last()) + wire(items.last())
    }
}

/// The tokens of the entries of a dictionary: each key, then its value.
pub open spec fn wire_entries(entries: Seq<(Seq<u8>, Value)>) -> Seq<u8>
    decreases entries, 0int,
{
    if entries.len() == 0 {
        seq![]
    } else {
        wire_entries(entries.drop_last()) + bytes_token(entries.last().0) + wire(entries.last().1)
    }
}

/// How many digits `s` starts with.
pub open spec fn digits_len(s: Seq<u8>) -> nat
    decreases s.len(),
{
    if s.len() == 0 || !is_digit(s[0]) {
        0
    } else {
        1 + digits_len(s.skip(1))
    }
}

/// Whether `b` may stand in the text of an integer: `-` or a digit.
pub open spec fn is_int_char(b: u8) -> bool {
    b == 45 || is_digit(b)
}

/// How many bytes that may stand in an integer `s` starts with.
pub open spec fn int_chars_len(s: Seq<u8>) -> nat
    decreases s.len(),
{
    if s.len() == 0 || !is_int_char(s[0]) {
        0
    } else {
        1 + int_chars_len(s.skip(1))
    }
}

/// Reads a byte string token at the start of `s`: its payload and the
/// length of the token.
pub open spec fn parse_bytes(s: Seq<u8>) -> Result<(Seq<u8>, int), DecodingErrorKind> {
    let n = digits_len(s) as int;
    let len = dec_value(s.take(n)) as int;
    if n == 0 {
        Err(DecodingErrorKind::InvalidLength)
    } else if n == s.len() {
        Err(DecodingErrorKind::UnexpectedEof)
    } else if s[n] != 58 || (n > 1 && s[0] == 48) {
        Err(DecodingErrorKind::InvalidLength)
    } else if n + 1 + len > s.len() {
        Err(DecodingErrorKind::UnexpectedEof)
    } else {
        Ok((s.subrange(n + 1, n + 1 + len), n + 1 + len))
    }
}

/// Reads an integer token at the start of `s`, which starts with `i`: its
/// text and the length of the token.
pub open spec fn parse_number(s: Seq<u8>) -> Result<(Seq<u8>, int), DecodingErrorKind> {
    let k = int_chars_len(s.skip(1)) as int;
    if 1 + k >= s.len() {
        Err(DecodingErrorKind::UnexpectedEof)
    } else if s[1 + k] != 101 || !int_text_ok(s.subrange(1, 1 + k)) {
        Err(DecodingErrorKind::InvalidInteger)
    } else {
        Ok((s.subrange(1, 1 + k), k + 2))
    }
}

/// Reads the value at the start of `s`: the value and the number of bytes
/// that its token takes.
pub open spec fn parse_item(s: Seq<u8>) -> Result<(Value, int), DecodingErrorKind>
    decreases s.len(), 0int,
{
    if s.len() == 0 {
        Err(DecodingErrorKind::UnexpectedEof)
    } else if is_digit(s[0]) {
        match parse_bytes(s) {
            Ok((payload, n)) => Ok((Value::Bytes(payload), n)),
            Err(e) => Err(e),
        }
    } else if s[0] == 105 {
        match parse_number(s) {
            Ok((text, n)) => Ok((Value::Number(text), n)),
            Err(e) => Err(e),
        }
    } else if s[0] == 108 {
        match parse_items(s.skip(1)) {
            Ok((items, n)) => Ok((Value::List(items), n + 2)),
            Err(e) => Err(e),
        }
    } else if s[0] == 100 {
        match parse_entries(s.skip(1)) {
            Ok((entries, n)) => Ok((Value::Dict(entries), n + 2)),
            Err(e) => Err(e),
        }
    } else {
        Err(DecodingErrorKind::InvalidHeader(s[0]))
    }
}

/// Reads the items of a list up to its closing `e`: the items and the
/// number of bytes that they take, the `e` not counted.
pub open spec fn parse_items(s: Seq<u8>) -> Result<(Seq<Value>, int), DecodingErrorKind>
    decreases s.len(), 1int,
{
    if s.len() == 0 {
        Err(DecodingErrorKind::UnexpectedEof)
    } else if s[0] == 101 {
        Ok((seq![], 0))
    } else {
        match parse_item(s) {
            Err(e) => Err(e),
            Ok((v, n)) => if 0 < n <= s.len() {
                match parse_items(s.skip(n)) {
                    Ok((rest, m)) => Ok((seq![v] + rest, n + m)),
                    Err(e) => Err(e),
                }
            } else {
                Err(DecodingErrorKind::UnexpectedEof)
            },
        }
    }
}

/// Reads the entries of a dictionary up to its closing `e`: the entries
/// and the number of bytes that they take, the `e` not counted.
pub open spec fn parse_entries(s: Seq<u8>) -> Result<
    (Seq<(Seq<u8>, Value)>, int),
    DecodingErrorKind,
>
    decreases s.len(), 1int,
{
    if s.len() == 0 {
        Err(DecodingErrorKind::UnexpectedEof)
    } else if s[0] == 101 {
        Ok((seq![], 0))
    } else {
        match parse_item(s) {
            Err(e) => Err(e),
            Ok((Value::Bytes(key), n)) => if 0 < n < s.len() {
                match parse_item(s.skip(n)) {
                    Err(e) => Err(e),
                    Ok((v, m)) => if 0 < m <= s.len() - n {
                        match parse_entries(s.skip(n + m)) {
                            Ok((rest, r)) => Ok((seq![(key, v)] + rest, n + m + r)),
                            Err(e) => Err(e),
                        }
                    } else {
                        Err(DecodingErrorKind::UnexpectedEof)
                    },
                }
            } else {
                Err(DecodingErrorKind::UnexpectedEof)
            },
            Ok(_) => Err(DecodingErrorKind::NonByteStringKey),
        }
    }
}

/// The value of the first entry with the key `key`, if there is one.
pub open spec fn dict_get(entries: Seq<(Seq<u8>, Value)>, key: Seq<u8>) -> Option<Value>
    decreases entries.len(),
{
    if entries.len() == 0 {
        None
    } else if entries[0].0 == key {
        Some(entries[0].1)
    } else {
        dict_get(entries.skip(1), key)
    }
}

/// The number that a non-negative integer of a value spells: `None` for
/// what is not an integer, is negative or is not well-formed.
pub open spec fn natural_of(v: Value) -> Option<nat> {
    match v {
        Value::Number(text) => if canonical_decimal(text) {
            Some(dec_value(text))
        } else {
            None
        },
        _ => None,
    }
}

/// Whether no dictionary inside `v` has two entries with one key.
pub open spec fn distinct_keys(v: Value) -> bool
    decreases v,
{
    match v {
        Value::Bytes(_) => true,
        Value::Number(_) => true,
        Value::List(items) => forall|i: int|
            0 <= i < items.len() ==> distinct_keys(#[trigger] items[i]),
        Value::Dict(entries) => {
            &&& forall|i: int, j: int|
                0 <= i < j < entries.len() ==> (#[trigger] entries[i]).0 != (#[trigger] entries[j]).0
            &&& forall|i: int| 0 <= i < entries.len() ==> distinct_keys((#[trigger] entries[i]).1)
        },
    }
}

/// Reads the value at the start of `s` as the strict decoder does: as
/// `parse_item`, but a dictionary with two entries of one key is an error.
pub open spec fn parse_strict(s: Seq<u8>) -> Result<(Value, int), DecodingErrorKind> {
    match parse_item(s) {
        Ok((v, n)) => if distinct_keys(v) {
            Ok((v, n))
        } else {
            Err(DecodingErrorKind::InvalidDuplicateKey)
        },
        Err(e) => Err(e),
    }
}

} // verus!
