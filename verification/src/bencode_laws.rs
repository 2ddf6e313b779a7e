//! What holds of the bencode grammar: reading gives back what was written,
//! and writing gives back what was read.

use crate::bencode_spec::{
    bytes_token, digits_len, int_chars_len, is_int_char, number_token, parse_bytes, parse_entries,
    parse_item, parse_items, parse_number, valid, wire, wire_entries, wire_items, DecodingErrorKind,
    Value,
};
use crate::decimal::{
    canonical_decimal, dec_text, is_digit, lemma_dec_text, lemma_dec_text_of_value,
};
use vstd::prelude::*;

verus! {

/// The digits that `s` starts with are digits, and what follows them is none.
pub proof fn lemma_digits_len(s: Seq<u8>)
    ensures
        digits_len(s) <= s.len(),
        forall|j: int| 0 <= j < digits_len(s) ==> is_digit(#[trigger] s[j]),
        digits_len(s) < s.len() ==> !is_digit(s[digits_len(s) as int]),
    decreases s.len(),
{
    if s.len() == 0 || !is_digit(s[0]) {
    } else {
        let t = s.skip(1);
        lemma_digits_len(t);
        assert forall|j: int| 0 <= j < digits_len(s) implies is_digit(#[trigger] s[j]) by {
            if j > 0 {
                assert(s[j] == t[j - 1]);
            }
        }
        if digits_len(s) < s.len() {
            assert(s[digits_len(s) as int] == t[digits_len(t) as int]);
        }
    }
}

/// A string that starts with `n` digits and goes on with another byte, or
/// ends there, starts with exactly `n` digits.
pub proof fn lemma_digits_len_is(s: Seq<u8>, n: int)
    requires
        0 <= n <= s.len(),
        forall|j: int| 0 <= j < n ==> is_digit(#[trigger] s[j]),
        n < s.len() ==> !is_digit(s[n]),
    ensures
        digits_len(s) == n,
    decreases n,
{
    if n == 0 {
    } else {
        assert(is_digit(s[0]));
        let t = s.skip(1);
        assert forall|j: int| 0 <= j < n - 1 implies is_digit(#[trigger] t[j]) by {
            assert(t[j] == s[j + 1]);
        }
        if n - 1 < t.len() {
            assert(t[n - 1] == s[n]);
        }
        lemma_digits_len_is(t, n - 1);
    }
}

/// The bytes of an integer that `s` starts with may stand in one, and what
/// follows them may not.
pub proof fn lemma_int_chars_len(s: Seq<u8>)
    ensures
        int_chars_len(s) <= s.len(),
        forall|j: int| 0 <= j < int_chars_len(s) ==> is_int_char(#[trigger] s[j]),
        int_chars_len(s) < s.len() ==> !is_int_char(s[int_chars_len(s) as int]),
    decreases s.len(),
{
    if s.len() == 0 || !is_int_char(s[0]) {
    } else {
        let t = s.skip(1);
        lemma_int_chars_len(t);
        assert forall|j: int| 0 <= j < int_chars_len(s) implies is_int_char(#[trigger] s[j]) by {
            if j > 0 {
                assert(s[j] == t[j - 1]);
            }
        }
        if int_chars_len(s) < s.len() {
            assert(s[int_chars_len(s) as int] == t[int_chars_len(t) as int]);
        }
    }
}

/// A string that starts with `n` bytes of an integer and goes on with
/// another byte, or ends there, starts with exactly `n` such bytes.
pub proof fn lemma_int_chars_len_is(s: Seq<u8>, n: int)
    requires
        0 <= n <= s.len(),
        forall|j: int| 0 <= j < n ==> is_int_char(#[trigger] s[j]),
        n < s.len() ==> !is_int_char(s[n]),
    ensures
        int_chars_len(s) == n,
    decreases n,
{
    if n == 0 {
    } else {
        assert(is_int_char(s[0]));
        let t = s.skip(1);
        assert forall|j: int| 0 <= j < n - 1 implies is_int_char(#[trigger] t[j]) by {
            assert(t[j] == s[j + 1]);
        }
        if n - 1 < t.len() {
            assert(t[n - 1] == s[n]);
        }
        lemma_int_chars_len_is(t, n - 1);
    }
}

/// The items of a list are written as the first, then the others.
pub proof fn lemma_wire_items_front(v: Value, rest: Seq<Value>)
    ensures
        wire_items(seq![v] + rest) == wire(v) + wire_items(rest),
    decreases rest.len(),
{
    let all = seq![v] + rest;
    if rest.len() == 0 {
        assert(all.drop_last() =~= Seq::<Value>::empty());
        assert(wire_items(all.drop_last()) =~= Seq::<u8>::empty());
        assert(wire_items(all) =~= wire(v) + wire_items(rest));
    } else {
        lemma_wire_items_front(v, rest.drop_last());
        assert(all.drop_last() =~= seq![v] + rest.drop_last());
        assert(all.last() == rest.last());
        assert(wire_items(all) =~= wire(v) + wire_items(rest));
    }
}

/// The entries of a dictionary are written as the first, then the others.
pub proof fn lemma_wire_entries_front(key: Seq<u8>, v: Value, rest: Seq<(Seq<u8>, Value)>)
    ensures
        wire_entries(seq![(key, v)] + rest) == bytes_token(key) + wire(v) + wire_entries(rest),
    decreases rest.len(),
{
    let all = seq![(key, v)] + rest;
    if rest.len() == 0 {
        assert(all.drop_last() =~= Seq::<(Seq<u8>, Value)>::empty());
        assert(wire_entries(all.drop_last()) =~= Seq::<u8>::empty());
        assert(wire_entries(all) =~= bytes_token(key) + wire(v) + wire_entries(rest));
    } else {
        lemma_wire_entries_front(key, v, rest.drop_last());
        assert(all.drop_last() =~= seq![(key, v)] + rest.drop_last());
        assert(all.last() == rest.last());
        assert(wire_entries(all) =~= bytes_token(key) + wire(v) + wire_entries(rest));
    }
}

/// What a byte string token that was read holds: the token is the start of
/// the input, and it is the one token of its payload.
pub proof fn lemma_parse_bytes_sound(s: Seq<u8>)
    ensures
        match parse_bytes(s) {
            Ok((payload, n)) => 0 < n <= s.len() && bytes_token(payload) == s.take(n),
            Err(_) => true,
        },
{
    if let Ok((payload, n)) = parse_bytes(s) {
        let d = digits_len(s) as int;
        lemma_digits_len(s);
        let digits = s.take(d);
        assert(digits[0] == s[0]);
        assert forall|j: int| 0 <= j < digits.len() implies is_digit(#[trigger] digits[j]) by {
            assert(digits[j] == s[j]);
        }
        lemma_dec_text_of_value(digits);
        assert(bytes_token(payload) =~= s.take(n));
    }
}

/// Reading gives back what was written: a value that was read is valid, its
/// token is the start of the input, and it takes the number of bytes reported.
pub proof fn lemma_parse_item_sound(s: Seq<u8>)
    ensures
        match parse_item(s) {
            Ok((v, n)) => 0 < n <= s.len() && wire(v) == s.take(n) && valid(v),
            Err(_) => true,
        },
    decreases s.len(), 0int,
{
    if s.len() == 0 {
    } else if is_digit(s[0]) {
        lemma_parse_bytes_sound(s);
    } else if s[0] == 105 {
        if let Ok((text, n)) = parse_number(s) {
            assert(number_token(text) =~= s.take(n));
        }
    } else if s[0] == 108 {
        lemma_parse_items_sound(s.skip(1));
        if let Ok((items, n)) = parse_items(s.skip(1)) {
            assert(s.skip(1).take(n) =~= s.subrange(1, n + 1));
            assert(s.skip(1)[n] == s[n + 1]);
            assert(seq![108u8] + wire_items(items) + seq![101u8] =~= s.take(n + 2));
        }
    } else if s[0] == 100 {
        lemma_parse_entries_sound(s.skip(1));
        if let Ok((entries, n)) = parse_entries(s.skip(1)) {
            assert(s.skip(1).take(n) =~= s.subrange(1, n + 1));
            assert(s.skip(1)[n] == s[n + 1]);
            assert(seq![100u8] + wire_entries(entries) + seq![101u8] =~= s.take(n + 2));
        }
    } else {
    }
}

/// The items that were read are valid, their tokens are the start of the
/// input, and the input goes on with the closing `e`.
pub proof fn lemma_parse_items_sound(s: Seq<u8>)
    ensures
        match parse_items(s) {
            Ok((items, n)) => {
                &&& 0 <= n < s.len()
                &&& s[n] == 101
                &&& wire_items(items) == s.take(n)
                &&& forall|i: int| 0 <= i < items.len() ==> valid(#[trigger] items[i])
            },
            Err(_) => true,
        },
    decreases s.len(), 1int,
{
    if s.len() == 0 {
    } else if s[0] == 101 {
        assert(wire_items(Seq::<Value>::empty()) =~= s.take(0));
    } else {
        lemma_parse_item_sound(s);
        if let Ok((v, n)) = parse_item(s) {
            lemma_parse_items_sound(s.skip(n));
            if let Ok((rest, m)) = parse_items(s.skip(n)) {
                let items = seq![v] + rest;
                lemma_wire_items_front(v, rest);
                assert(s.skip(n).take(m) =~= s.subrange(n, n + m));
                assert(s.take(n + m) =~= s.take(n) + s.subrange(n, n + m));
                assert(s.skip(n)[m] == s[n + m]);
                assert forall|i: int| 0 <= i < items.len() implies valid(#[trigger] items[i]) by {
                    if i > 0 {
                        assert(items[i] == rest[i - 1]);
                    }
                }
            }
        }
    }
}

/// The entries that were read hold valid values, their tokens are the start
/// of the input, and the input goes on with the closing `e`.
pub proof fn lemma_parse_entries_sound(s: Seq<u8>)
    ensures
        match parse_entries(s) {
            Ok((entries, n)) => {
                &&& 0 <= n < s.len()
                &&& s[n] == 101
                &&& wire_entries(entries) == s.take(n)
                &&& forall|i: int| 0 <= i < entries.len() ==> valid((#[trigger] entries[i]).1)
            },
            Err(_) => true,
        },
    decreases s.len(), 1int,
{
    if s.len() == 0 {
    } else if s[0] == 101 {
        assert(wire_entries(Seq::<(Seq<u8>, Value)>::empty()) =~= s.take(0));
    } else {
        lemma_parse_item_sound(s);
        if let Ok((Value::Bytes(key), n)) = parse_item(s) {
            if 0 < n < s.len() {
                lemma_parse_item_sound(s.skip(n));
                if let Ok((v, m)) = parse_item(s.skip(n)) {
                    lemma_parse_entries_sound(s.skip(n + m));
                    if let Ok((rest, r)) = parse_entries(s.skip(n + m)) {
                        let entries = seq![(key, v)] + rest;
                        lemma_wire_entries_front(key, v, rest);
                        assert(s.skip(n).take(m) =~= s.subrange(n, n + m));
                        assert(s.skip(n + m).take(r) =~= s.subrange(n + m, n + m + r));
                        assert(s.take(n + m + r) =~= s.take(n) + s.subrange(n, n + m)
                            + s.subrange(n + m, n + m + r));
                        assert(s.skip(n + m)[r] == s[n + m + r]);
                        assert forall|i: int| 0 <= i < entries.len() implies valid(
                            (#[trigger] entries[i]).1,
                        ) by {
                            if i > 0 {
                                assert(entries[i] == rest[i - 1]);
                            }
                        }
                    }
                }
            }
        }
    }
}

/// The token of a byte string starts with a digit, and is read back as
/// that byte string whatever follows it.
pub proof fn lemma_parse_bytes_token(payload: Seq<u8>, rest: Seq<u8>)
    ensures
        bytes_token(payload).len() > 0,
        is_digit(bytes_token(payload)[0]),
        parse_bytes(bytes_token(payload) + rest) == Ok::<(Seq<u8>, int), DecodingErrorKind>(
            (payload, bytes_token(payload).len() as int),
        ),
{
    let digits = dec_text(payload.len());
    let token = bytes_token(payload);
    let s = token + rest;
    let n = digits.len() as int;
    lemma_dec_text(payload.len());
    assert(token[0] == digits[0]);
    assert forall|j: int| 0 <= j < n implies is_digit(#[trigger] s[j]) by {
        assert(s[j] == digits[j]);
    }
    assert(s[n] == 58);
    lemma_digits_len_is(s, n);
    assert(s.take(n) =~= digits);
    assert(s[0] == digits[0]);
    assert(s.subrange(n + 1, n + 1 + payload.len()) =~= payload);
}

/// The token of a value starts with the byte that opens its kind, which is not `e`.
pub proof fn lemma_wire_header(v: Value)
    ensures
        wire(v).len() > 0,
        match v {
            Value::Bytes(_) => is_digit(wire(v)[0]),
            Value::Number(_) => wire(v)[0] == 105,
            Value::List(_) => wire(v)[0] == 108,
            Value::Dict(_) => wire(v)[0] == 100,
        },
{
    match v {
        Value::Bytes(payload) => {
            lemma_parse_bytes_token(payload, Seq::<u8>::empty());
        },
        _ => {},
    }
}

/// Writing gives back what was read: the token of a valid value, followed by
/// anything, is read as that value, and as taking the length of the token.
pub proof fn lemma_parse_wire(v: Value, rest: Seq<u8>)
    requires
        valid(v),
    ensures
        parse_item(wire(v) + rest) == Ok::<(Value, int), DecodingErrorKind>(
            (v, wire(v).len() as int),
        ),
    decreases v, 0int,
{
    let s = wire(v) + rest;
    lemma_wire_header(v);
    assert(s[0] == wire(v)[0]);
    match v {
        Value::Bytes(payload) => {
            lemma_parse_bytes_token(payload, rest);
        },
        Value::Number(text) => {
            let t = s.skip(1);
            let k = text.len() as int;
            assert forall|j: int| 0 <= j < k implies is_int_char(#[trigger] t[j]) by {
                assert(t[j] == text[j]);
                if canonical_decimal(text) {
                } else {
                    if j > 0 {
                        assert(text.skip(1)[j - 1] == text[j]);
                    }
                }
            }
            assert(t[k] == 101);
            lemma_int_chars_len_is(t, k);
            assert(s.subrange(1, 1 + k) =~= text);
            assert(s[1 + k] == 101);
        },
        Value::List(items) => {
            let tail = seq![101u8] + rest;
            assert(items.skip(0) =~= items);
            lemma_parse_wire_items(items, 0, tail);
            assert(s.skip(1) =~= wire_items(items) + tail);
        },
        Value::Dict(entries) => {
            let tail = seq![101u8] + rest;
            assert(entries.skip(0) =~= entries);
            lemma_parse_wire_entries(entries, 0, tail);
            assert(s.skip(1) =~= wire_entries(entries) + tail);
        },
    }
}

/// The tokens of the items from `from` on, followed by `e` and anything,
/// are read as those items.
pub proof fn lemma_parse_wire_items(items: Seq<Value>, from: int, tail: Seq<u8>)
    requires
        0 <= from <= items.len(),
        forall|i: int| 0 <= i < items.len() ==> valid(#[trigger] items[i]),
        tail.len() > 0,
        tail[0] == 101,
    ensures
        parse_items(wire_items(items.skip(from)) + tail) == Ok::<
            (Seq<Value>, int),
            DecodingErrorKind,
        >((items.skip(from), wire_items(items.skip(from)).len() as int)),
    decreases items, items.len() - from,
{
    let these = items.skip(from);
    let s = wire_items(these) + tail;
    if from == items.len() {
        assert(these =~= Seq::<Value>::empty());
        assert(s =~= tail);
    } else {
        let v = items[from];
        let others = items.skip(from + 1);
        assert(these =~= seq![v] + others);
        lemma_wire_items_front(v, others);
        lemma_wire_header(v);
        let after = wire_items(others) + tail;
        assert(s =~= wire(v) + after);
        assert(s[0] == wire(v)[0]);
        lemma_parse_wire(v, after);
        lemma_parse_wire_items(items, from + 1, tail);
        assert(s.skip(wire(v).len() as int) =~= after);
    }
}

/// The tokens of the entries from `from` on, followed by `e` and anything,
/// are read as those entries.
pub proof fn lemma_parse_wire_entries(entries: Seq<(Seq<u8>, Value)>, from: int, tail: Seq<u8>)
    requires
        0 <= from <= entries.len(),
        forall|i: int| 0 <= i < entries.len() ==> valid((#[trigger] entries[i]).1),
        tail.len() > 0,
        tail[0] == 101,
    ensures
        parse_entries(wire_entries(entries.skip(from)) + tail) == Ok::<
            (Seq<(Seq<u8>, Value)>, int),
            DecodingErrorKind,
        >((entries.skip(from), wire_entries(entries.skip(from)).len() as int)),
    decreases entries, entries.len() - from,
{
    let these = entries.skip(from);
    let s = wire_entries(these) + tail;
    if from == entries.len() {
        assert(these =~= Seq::<(Seq<u8>, Value)>::empty());
        assert(s =~= tail);
    } else {
        let key = entries[from].0;
        let v = entries[from].1;
        let others = entries.skip(from + 1);
        assert(these =~= seq![(key, v)] + others);
        lemma_wire_entries_front(key, v, others);
        let token = bytes_token(key);
        let after = wire_entries(others) + tail;
        let middle = wire(v) + after;
        lemma_parse_bytes_token(key, middle);
        lemma_wire_header(v);
        assert(s =~= token + middle);
        assert(s[0] == token[0]);
        assert(valid(entries[from].1));
        lemma_parse_wire(v, after);
        lemma_parse_wire_entries(entries, from + 1, tail);
        let n = token.len() as int;
        let m = wire(v).len() as int;
        assert(s.skip(n) =~= middle);
        assert(s.skip(n + m) =~= after);
        assert(parse_item(s) == Ok::<(Value, int), DecodingErrorKind>((Value::Bytes(key), n)));
    }
}

} // verus!
