//! The bencode decoder.

use crate::bencode_item::{entry_views, item_views};
pub use crate::bencode_item::{DecodingError, Entry, Field, Item};
use crate::bencode_spec::{
    bytes_token, digits_len, distinct_keys, int_chars_len, int_text_ok, is_int_char, number_token,
    parse_bytes, parse_entries, parse_item, parse_items, parse_number, parse_strict, valid, wire,
    wire_entries, wire_items, DecodingErrorKind, Value,
};
use crate::byte_order::bytes_eq;
use crate::decimal::{all_digits, decimal_value, is_digit, is_digit_byte, lemma_dec_text_of_value};
use vstd::prelude::*;
use vstd::slice::slice_subrange;

verus! {

/// A well-formed item holds a valid value.
pub proof fn lemma_wf_valid(item: Item)
    requires
        item.wf(),
    ensures
        valid(item@),
    decreases item,
{
    match item {
        Item::Bytes(_) => {},
        Item::Number(_) => {},
        Item::List(f) => {
            let items = item@->List_0;
            assert forall|i: int| 0 <= i < items.len() implies valid(#[trigger] items[i]) by {
                assert(f.payload@[i].wf());
                lemma_wf_valid(f.payload@[i]);
            }
        },
        Item::Dict(f) => {
            let entries = item@->Dict_0;
            assert forall|i: int| 0 <= i < entries.len() implies valid(
                (#[trigger] entries[i]).1,
            ) by {
                assert(f.payload@[i].value.wf());
                lemma_wf_valid(f.payload@[i].value);
            }
        },
    }
}

/// Where the token of item `i` of a list starts in the token of the list.
pub open spec fn item_offset(items: Seq<Value>, i: int) -> int {
    1 + wire_items(items.take(i)).len() as int
}

/// Where the token of the key of entry `i` of a dictionary starts in the
/// token of the dictionary.
pub open spec fn key_offset(entries: Seq<(Seq<u8>, Value)>, i: int) -> int {
    1 + wire_entries(entries.take(i)).len() as int
}

/// Where the token of the value of entry `i` of a dictionary starts in the
/// token of the dictionary.
pub open spec fn value_offset(entries: Seq<(Seq<u8>, Value)>, i: int) -> int {
    key_offset(entries, i) + bytes_token(entries[i].0).len()
}

/// The bytes that an item of a well-formed list holds are the bytes of
/// the list at the place of the item.
pub proof fn lemma_list_item_raw(item: Item, i: int)
    requires
        item.wf(),
        item is List,
        0 <= i < item->List_0.payload@.len(),
    ensures
        ({
            let child = item->List_0.payload@[i];
            let at = item_offset(item@->List_0, i);
            &&& child.wf()
            &&& 0 < at
            &&& at + child.raw().len() < item.raw().len()
            &&& item.raw().subrange(at, at + child.raw().len()) == child.raw()
        }),
{
    let items = item@->List_0;
    let child = item->List_0.payload@[i];
    assert(items[i] == child@);
    assert(child.wf());
    assert(child.raw() == wire(child@));
    lemma_wire_items_split(items, i);
    let at = item_offset(items, i);
    assert(item.raw() =~= seq![108u8] + wire_items(items) + seq![101u8]);
    assert(wire_items(items).subrange(at - 1, at - 1 + child.raw().len()) =~= child.raw());
    assert(item.raw().subrange(at, at + child.raw().len()) =~= child.raw());
}

/// The bytes that the key and the value of an entry of a well-formed
/// dictionary hold are the bytes of the dictionary at their places.
pub proof fn lemma_dict_entry_raw(item: Item, i: int)
    requires
        item.wf(),
        item is Dict,
        0 <= i < item->Dict_0.payload@.len(),
    ensures
        ({
            let entry = item->Dict_0.payload@[i];
            let key_at = key_offset(item@->Dict_0, i);
            let value_at = value_offset(item@->Dict_0, i);
            &&& entry.value.wf()
            &&& 0 < key_at
            &&& value_at == key_at + entry.key.raw@.len()
            &&& value_at + entry.value.raw().len() < item.raw().len()
            &&& item.raw().subrange(key_at, value_at) == entry.key.raw@
            &&& item.raw().subrange(value_at, value_at + entry.value.raw().len())
                == entry.value.raw()
        }),
{
    let entries = item@->Dict_0;
    let entry = item->Dict_0.payload@[i];
    assert(entries[i] == (entry.key.payload@, entry.value@));
    assert(entry.value.wf());
    assert(entry.value.raw() == wire(entry.value@));
    assert(entry.key.raw@ == bytes_token(entry.key.payload@));
    lemma_wire_entries_split(entries, i);
    let key_at = key_offset(entries, i);
    let value_at = value_offset(entries, i);
    assert(item.raw() =~= seq![100u8] + wire_entries(entries) + seq![101u8]);
    assert(wire_entries(entries).subrange(key_at - 1, value_at - 1) =~= entry.key.raw@);
    assert(wire_entries(entries).subrange(
        value_at - 1,
        value_at - 1 + entry.value.raw().len(),
    ) =~= entry.value.raw());
    assert(item.raw().subrange(key_at, value_at) =~= entry.key.raw@);
    assert(item.raw().subrange(value_at, value_at + entry.value.raw().len())
        =~= entry.value.raw());
}

/// The tokens of the items of a list are those before item `i`, the token
/// of item `i`, and those behind it.
pub proof fn lemma_wire_items_split(items: Seq<Value>, i: int)
    requires
        0 <= i < items.len(),
    ensures
        wire_items(items) == wire_items(items.take(i)) + wire(items[i]) + wire_items(
            items.skip(i + 1),
        ),
    decreases items.len() - i,
{
    if i == items.len() - 1 {
        assert(items.drop_last() =~= items.take(i));
        assert(items.skip(i + 1) =~= Seq::<Value>::empty());
        assert(wire_items(items) =~= wire_items(items.take(i)) + wire(items[i]) + wire_items(
            items.skip(i + 1),
        ));
    } else {
        let front = items.drop_last();
        lemma_wire_items_split(front, i);
        assert(front.take(i) =~= items.take(i));
        assert(front[i] == items[i]);
        assert(items.skip(i + 1).drop_last() =~= front.skip(i + 1));
        assert(items.skip(i + 1).last() == items.last());
        assert(wire_items(items) =~= wire_items(items.take(i)) + wire(items[i]) + wire_items(
            items.skip(i + 1),
        ));
    }
}

/// The tokens of the entries of a dictionary are those before entry `i`,
/// the tokens of the key and the value of entry `i`, and those behind it.
pub proof fn lemma_wire_entries_split(entries: Seq<(Seq<u8>, Value)>, i: int)
    requires
        0 <= i < entries.len(),
    ensures
        wire_entries(entries) == wire_entries(entries.take(i)) + bytes_token(entries[i].0) + wire(
            entries[i].1,
        ) + wire_entries(entries.skip(i + 1)),
    decreases entries.len() - i,
{
    if i == entries.len() - 1 {
        assert(entries.drop_last() =~= entries.take(i));
        assert(entries.skip(i + 1) =~= Seq::<(Seq<u8>, Value)>::empty());
        assert(wire_entries(entries) =~= wire_entries(entries.take(i)) + bytes_token(
            entries[i].0,
        ) + wire(entries[i].1) + wire_entries(entries.skip(i + 1)));
    } else {
        let front = entries.drop_last();
        lemma_wire_entries_split(front, i);
        assert(front.take(i) =~= entries.take(i));
        assert(front[i] == entries[i]);
        assert(entries.skip(i + 1).drop_last() =~= front.skip(i + 1));
        assert(entries.skip(i + 1).last() == entries.last());
        assert(wire_entries(entries) =~= wire_entries(entries.take(i)) + bytes_token(
            entries[i].0,
        ) + wire(entries[i].1) + wire_entries(entries.skip(i + 1)));
    }
}

/// What `decode` owes for the input `input` read from `pos`: on success
/// the item that the grammar reads there, with its bytes taken from the
/// input at `pos`; on failure the error that the grammar gives.
pub open spec fn decoded(input: Seq<u8>, pos: int, res: Result<Item, DecodingError>) -> bool {
    match res {
        Ok(item) => {
            &&& parse_item(input.skip(pos)) == Ok::<(Value, int), DecodingErrorKind>(
                (item@, item.raw().len() as int),
            )
            &&& 0 < item.raw().len() <= input.len() - pos
            &&& item.raw() == input.subrange(pos, pos + item.raw().len())
            &&& item.wf()
        },
        Err(e) => parse_item(input.skip(pos)) == Err::<(Value, int), DecodingErrorKind>(e.kind),
    }
}

/// The digits that `s` starts with are those up to `i`, and those that
/// follow there.
proof fn lemma_digits_len_from(s: Seq<u8>, i: int)
    requires
        0 <= i <= s.len(),
        forall|j: int| 0 <= j < i ==> is_digit(#[trigger] s[j]),
    ensures
        digits_len(s) == i + digits_len(s.skip(i)),
    decreases i,
{
    if i == 0 {
        assert(s.skip(0) =~= s);
    } else {
        assert(is_digit(s[0]));
        let t = s.skip(1);
        assert forall|j: int| 0 <= j < i - 1 implies is_digit(#[trigger] t[j]) by {
            assert(t[j] == s[j + 1]);
        }
        lemma_digits_len_from(t, i - 1);
        assert(t.skip(i - 1) =~= s.skip(i));
    }
}

/// The bytes of an integer that `s` starts with are those up to `i`, and
/// those that follow there.
proof fn lemma_int_chars_len_from(s: Seq<u8>, i: int)
    requires
        0 <= i <= s.len(),
        forall|j: int| 0 <= j < i ==> is_int_char(#[trigger] s[j]),
    ensures
        int_chars_len(s) == i + int_chars_len(s.skip(i)),
    decreases i,
{
    if i == 0 {
        assert(s.skip(0) =~= s);
    } else {
        assert(is_int_char(s[0]));
        let t = s.skip(1);
        assert forall|j: int| 0 <= j < i - 1 implies is_int_char(#[trigger] t[j]) by {
            assert(t[j] == s[j + 1]);
        }
        lemma_int_chars_len_from(t, i - 1);
        assert(t.skip(i - 1) =~= s.skip(i));
    }
}

/// Finds where the digits that start at `from` end.
pub fn scan_digits(input: &[u8], from: usize) -> (to: usize)
    requires
        from <= input@.len(),
    ensures
        from <= to <= input@.len(),
        to - from == digits_len(input@.skip(from as int)),
        all_digits(input@.subrange(from as int, to as int)),
{
    let ghost s = input@.skip(from as int);
    let mut to: usize = from;
    while to < input.len() && is_digit_byte(input[to])
        invariant
            from <= to <= input@.len(),
            s == input@.skip(from as int),
            forall|j: int| 0 <= j < to - from ==> is_digit(#[trigger] s[j]),
        decreases input@.len() - to,
    {
        assert(s[to - from] == input@[to as int]);
        to += 1;
    }
    proof {
        lemma_digits_len_from(s, to - from);
        let rest = s.skip(to - from);
        if to < input@.len() {
            assert(rest[0] == input@[to as int]);
        }
        assert(digits_len(rest) == 0);
        let d = input@.subrange(from as int, to as int);
        assert forall|j: int| 0 <= j < d.len() implies is_digit(#[trigger] d[j]) by {
            assert(d[j] == s[j]);
        }
    }
    to
}

/// Whether `input[from..to]` is all digits.
fn digits_only(input: &[u8], from: usize, to: usize) -> (r: bool)
    requires
        from <= to <= input@.len(),
    ensures
        r == all_digits(input@.subrange(from as int, to as int)),
{
    let ghost d = input@.subrange(from as int, to as int);
    let mut i: usize = from;
    while i < to
        invariant
            from <= i <= to <= input@.len(),
            d == input@.subrange(from as int, to as int),
            forall|j: int| 0 <= j < i - from ==> is_digit(#[trigger] d[j]),
        decreases to - i,
    {
        if !is_digit_byte(input[i]) {
            assert(d[i - from] == input@[i as int]);
            return false;
        }
        assert(d[i - from] == input@[i as int]);
        i += 1;
    }
    true
}

/// Whether `input[from..to]` is the text of an integer.
fn int_text_check(input: &[u8], from: usize, to: usize) -> (r: bool)
    requires
        from <= to <= input@.len(),
    ensures
        r == int_text_ok(input@.subrange(from as int, to as int)),
{
    let ghost t = input@.subrange(from as int, to as int);
    if to == from {
        return false;
    }
    assert(t[0] == input@[from as int]);
    if input[from] == 45 {
        if to - from < 2 {
            return false;
        }
        assert(t[1] == input@[from + 1]);
        assert(t.skip(1) =~= input@.subrange(from + 1, to as int));
        if input[from + 1] == 48 {
            return false;
        }
        let r = digits_only(input, from + 1, to);
        proof {
            if r {
                assert(t.skip(1)[0] == t[1]);
            }
        }
        r
    } else {
        let r = digits_only(input, from, to);
        r && (to - from == 1 || input[from] != 48)
    }
}

/// Reads the byte string token that starts at `pos`.
fn decode_bytes<'a>(input: &'a [u8], pos: usize) -> (res: Result<Field<'a, &'a [u8]>, DecodingError>)
    requires
        pos <= input@.len(),
    ensures
        match res {
            Ok(f) => {
                &&& parse_bytes(input@.skip(pos as int)) == Ok::<(Seq<u8>, int), DecodingErrorKind>(
                    (f.payload@, f.raw@.len() as int),
                )
                &&& 0 < f.raw@.len() <= input@.len() - pos
                &&& f.raw@ == input@.subrange(pos as int, pos + f.raw@.len())
                &&& f.raw@ == bytes_token(f.payload@)
            },
            Err(e) => parse_bytes(input@.skip(pos as int)) == Err::<
                (Seq<u8>, int),
                DecodingErrorKind,
            >(e.kind),
        },
{
    let ghost s = input@.skip(pos as int);
    let colon = scan_digits(input, pos);
    let n: usize = colon - pos;
    assert(s.take(n as int) =~= input@.subrange(pos as int, colon as int));
    if n == 0 {
        return Err(DecodingError::new(DecodingErrorKind::InvalidLength));
    }
    if colon == input.len() {
        return Err(DecodingError::new(DecodingErrorKind::UnexpectedEof));
    }
    assert(s[n as int] == input@[colon as int]);
    assert(s[0] == input@[pos as int]);
    if input[colon] != 58 || (n > 1 && input[pos] == 48) {
        return Err(DecodingError::new(DecodingErrorKind::InvalidLength));
    }
    let room: usize = input.len() - colon - 1;
    match decimal_value(input, pos, colon, room as u64) {
        None => Err(DecodingError::new(DecodingErrorKind::UnexpectedEof)),
        Some(len) => {
            let end: usize = colon + 1 + len as usize;
            let payload = slice_subrange(input, colon + 1, end);
            let raw = slice_subrange(input, pos, end);
            proof {
                let digits = s.take(n as int);
                assert(digits[0] == s[0]);
                lemma_dec_text_of_value(digits);
                assert(payload@ =~= s.subrange(n + 1, n + 1 + len));
                assert(raw@ =~= digits + seq![58u8] + payload@);
            }
            Ok(Field::new(raw, payload))
        },
    }
}

/// Reads the integer token that starts at `pos`.
fn decode_number<'a>(input: &'a [u8], pos: usize) -> (res: Result<
    Field<'a, &'a [u8]>,
    DecodingError,
>)
    requires
        pos < input@.len(),
        input@[pos as int] == 105,
    ensures
        match res {
            Ok(f) => {
                &&& parse_number(input@.skip(pos as int)) == Ok::<
                    (Seq<u8>, int),
                    DecodingErrorKind,
                >((f.payload@, f.raw@.len() as int))
                &&& 0 < f.raw@.len() <= input@.len() - pos
                &&& f.raw@ == input@.subrange(pos as int, pos + f.raw@.len())
                &&& f.raw@ == number_token(f.payload@)
                &&& int_text_ok(f.payload@)
            },
            Err(e) => parse_number(input@.skip(pos as int)) == Err::<
                (Seq<u8>, int),
                DecodingErrorKind,
            >(e.kind),
        },
{
    let ghost s = input@.skip(pos as int);
    let ghost t = s.skip(1);
    let total: usize = input.len();
    let start: usize = pos + 1;
    let mut end: usize = start;
    while end < input.len() && (input[end] == 45 || is_digit_byte(input[end]))
        invariant
            start <= end <= input@.len(),
            start == pos + 1,
            t == input@.skip(pos as int).skip(1),
            forall|j: int| 0 <= j < end - start ==> is_int_char(#[trigger] t[j]),
        decreases input@.len() - end,
    {
        assert(t[end - start] == input@[end as int]);
        end += 1;
    }
    let ghost k = (end - start) as int;
    proof {
        lemma_int_chars_len_from(t, k);
        let rest = t.skip(k);
        if end < input@.len() {
            assert(rest[0] == input@[end as int]);
        }
        assert(int_chars_len(rest) == 0);
        assert(s.subrange(1, 1 + k) =~= input@.subrange(start as int, end as int));
    }
    if end == input.len() {
        return Err(DecodingError::new(DecodingErrorKind::UnexpectedEof));
    }
    assert(s[1 + k] == input@[end as int]);
    if input[end] != 101 || !int_text_check(input, start, end) {
        return Err(DecodingError::new(DecodingErrorKind::InvalidInteger));
    }
    let payload = slice_subrange(input, start, end);
    let raw = slice_subrange(input, pos, end + 1);
    proof {
        assert(raw@ =~= seq![105u8] + payload@ + seq![101u8]);
    }
    Ok(Field::new(raw, payload))
}

/// The items read so far, followed by what is read from there on.
spec fn items_then(
    done: Seq<Value>,
    n: int,
    more: Result<(Seq<Value>, int), DecodingErrorKind>,
) -> Result<(Seq<Value>, int), DecodingErrorKind> {
    match more {
        Ok((rest, m)) => Ok((done + rest, n + m)),
        Err(e) => Err(e),
    }
}

/// The entries read so far, followed by what is read from there on.
spec fn entries_then(
    done: Seq<(Seq<u8>, Value)>,
    n: int,
    more: Result<(Seq<(Seq<u8>, Value)>, int), DecodingErrorKind>,
) -> Result<(Seq<(Seq<u8>, Value)>, int), DecodingErrorKind> {
    match more {
        Ok((rest, m)) => Ok((done + rest, n + m)),
        Err(e) => Err(e),
    }
}

/// Reads the value that starts at `pos`: the item that the grammar reads
/// there, whose bytes are those of the input from `pos` on, or the error
/// that the grammar gives.
pub fn decode<'a>(input: &'a [u8], pos: usize) -> (res: Result<Item<'a>, DecodingError>)
    requires
        pos <= input@.len(),
    ensures
        decoded(input@, pos as int, res),
    decreases input@.len() - pos, 1int,
{
    let ghost s = input@.skip(pos as int);
    if pos >= input.len() {
        return Err(DecodingError::new(DecodingErrorKind::UnexpectedEof));
    }
    let header = input[pos];
    assert(s[0] == header);
    if is_digit_byte(header) {
        match decode_bytes(input, pos) {
            Ok(f) => Ok(Item::Bytes(f)),
            Err(e) => Err(e),
        }
    } else if header == 105 {
        match decode_number(input, pos) {
            Ok(f) => Ok(Item::Number(f)),
            Err(e) => Err(e),
        }
    } else if header == 108 {
        decode_list(input, pos)
    } else if header == 100 {
        decode_dict(input, pos)
    } else {
        Err(DecodingError::new(DecodingErrorKind::InvalidHeader(header)))
    }
}

/// Reading one more item after `done` is reading `done` with that item.
proof fn lemma_items_then(
    done: Seq<Value>,
    a: int,
    v: Value,
    n: int,
    after: Result<(Seq<Value>, int), DecodingErrorKind>,
)
    ensures
        items_then(done, a, items_then(seq![v], n, after)) == items_then(done.push(v), a + n, after),
{
    match after {
        Ok((rest, m)) => {
            assert(done + (seq![v] + rest) =~= done.push(v) + rest);
        },
        Err(_) => {},
    }
}

/// Reading one more entry after `done` is reading `done` with that entry.
proof fn lemma_entries_then(
    done: Seq<(Seq<u8>, Value)>,
    a: int,
    pair: (Seq<u8>, Value),
    n: int,
    after: Result<(Seq<(Seq<u8>, Value)>, int), DecodingErrorKind>,
)
    ensures
        entries_then(done, a, entries_then(seq![pair], n, after)) == entries_then(
            done.push(pair),
            a + n,
            after,
        ),
{
    match after {
        Ok((rest, m)) => {
            assert(done + (seq![pair] + rest) =~= done.push(pair) + rest);
        },
        Err(_) => {},
    }
}

/// Nothing read yet, followed by what is read, is what is read.
proof fn lemma_items_then_nothing(more: Result<(Seq<Value>, int), DecodingErrorKind>)
    ensures
        items_then(Seq::<Value>::empty(), 0, more) == more,
{
    match more {
        Ok((rest, m)) => {
            assert(Seq::<Value>::empty() + rest =~= rest);
        },
        Err(_) => {},
    }
}

/// Nothing read yet, followed by what is read, is what is read.
proof fn lemma_entries_then_nothing(
    more: Result<(Seq<(Seq<u8>, Value)>, int), DecodingErrorKind>,
)
    ensures
        entries_then(Seq::<(Seq<u8>, Value)>::empty(), 0, more) == more,
{
    match more {
        Ok((rest, m)) => {
            assert(Seq::<(Seq<u8>, Value)>::empty() + rest =~= rest);
        },
        Err(_) => {},
    }
}

/// The items of a list with one more are written as the items, then that one.
pub proof fn lemma_wire_items_push(items: Seq<Value>, v: Value)
    ensures
        wire_items(items.push(v)) == wire_items(items) + wire(v),
{
    assert(items.push(v).drop_last() =~= items);
}

/// The entries of a dictionary with one more are written as the entries,
/// then the key and the value of that one.
pub proof fn lemma_wire_entries_push(entries: Seq<(Seq<u8>, Value)>, key: Seq<u8>, v: Value)
    ensures
        wire_entries(entries.push((key, v))) == wire_entries(entries) + bytes_token(key) + wire(v),
{
    assert(entries.push((key, v)).drop_last() =~= entries);
}

/// Reads the list that starts at `pos`.
fn decode_list<'a>(input: &'a [u8], pos: usize) -> (res: Result<Item<'a>, DecodingError>)
    requires
        pos < input@.len(),
        input@[pos as int] == 108,
    ensures
        decoded(input@, pos as int, res),
    decreases input@.len() - pos, 0int,
{
    let ghost s = input@.skip(pos as int);
    let total: usize = input.len();
    let first: usize = pos + 1;
    let mut items: Vec<Item<'a>> = Vec::new();
    let mut cur: usize = first;
    proof {
        assert(s.skip(1) =~= input@.skip(first as int));
        assert(s[0] == 108);
        assert(item_views(items@) =~= Seq::<Value>::empty());
        assert(input@.subrange(first as int, cur as int) =~= Seq::<u8>::empty());
        lemma_items_then_nothing(parse_items(input@.skip(cur as int)));
    }
    while cur < total && input[cur] != 101
        invariant
            first == pos + 1,
            total == input@.len(),
            first <= cur <= total,
            s == input@.skip(pos as int),
            s.len() > 0,
            s[0] == 108,
            s.skip(1) == input@.skip(first as int),
            forall|i: int| 0 <= i < items@.len() ==> (#[trigger] items@[i]).wf(),
            parse_items(input@.skip(first as int)) == items_then(
                item_views(items@),
                cur - first,
                parse_items(input@.skip(cur as int)),
            ),
            input@.subrange(first as int, cur as int) == wire_items(item_views(items@)),
        decreases total - cur,
    {
        let ghost here = input@.skip(cur as int);
        assert(here[0] == input@[cur as int]);
        match decode(input, cur) {
            Err(e) => {
                return Err(e);
            },
            Ok(item) => {
                let n = item.raw_length();
                proof {
                    let done = item_views(items@);
                    let after = parse_items(input@.skip(cur + n));
                    assert(here.skip(n as int) =~= input@.skip(cur + n));
                    assert(parse_items(here) == items_then(seq![item@], n as int, after));
                    lemma_items_then(done, cur - first, item@, n as int, after);
                    assert(item_views(items@.push(item)) =~= done.push(item@));
                    lemma_wire_items_push(done, item@);
                    assert(input@.subrange(first as int, cur + n) =~= input@.subrange(
                        first as int,
                        cur as int,
                    ) + input@.subrange(cur as int, cur + n));
                }
                items.push(item);
                cur = cur + n;
            },
        }
    }
    let ghost here = input@.skip(cur as int);
    if cur >= total {
        return Err(DecodingError::new(DecodingErrorKind::UnexpectedEof));
    }
    assert(here[0] == input@[cur as int]);
    let raw = slice_subrange(input, pos, cur + 1);
    let out = Item::List(Field::new(raw, items));
    proof {
        let views = item_views(items@);
        assert(out@->List_0 =~= views);
        assert(out@ == Value::List(views));
        assert(views + Seq::<Value>::empty() =~= views);
        assert(raw@ =~= seq![108u8] + input@.subrange(first as int, cur as int) + seq![101u8]);
    }
    Ok(out)
}

/// One entry read at the start of `here`, and the entries that follow it.
proof fn lemma_parse_entries_step(here: Seq<u8>, key: Seq<u8>, n: int, v: Value, m: int)
    requires
        here.len() > 0,
        here[0] != 101,
        parse_item(here) == Ok::<(Value, int), DecodingErrorKind>((Value::Bytes(key), n)),
        0 < n < here.len(),
        parse_item(here.skip(n)) == Ok::<(Value, int), DecodingErrorKind>((v, m)),
        0 < m <= here.len() - n,
    ensures
        parse_entries(here) == entries_then(seq![(key, v)], n + m, parse_entries(here.skip(n + m))),
{
}

/// A dictionary whose entries fail to parse fails in the same way.
proof fn lemma_parse_dict_err(s: Seq<u8>, e: DecodingErrorKind)
    requires
        s.len() > 0,
        s[0] == 100,
        parse_entries(s.skip(1)) == Err::<(Seq<(Seq<u8>, Value)>, int), DecodingErrorKind>(e),
    ensures
        parse_item(s) == Err::<(Value, int), DecodingErrorKind>(e),
{
}

/// Reads the dictionary that starts at `pos`.
#[verifier::rlimit(50)]
fn decode_dict<'a>(input: &'a [u8], pos: usize) -> (res: Result<Item<'a>, DecodingError>)
    requires
        pos < input@.len(),
        input@[pos as int] == 100,
    ensures
        decoded(input@, pos as int, res),
    decreases input@.len() - pos, 0int,
{
    let ghost s = input@.skip(pos as int);
    let total: usize = input.len();
    let first: usize = pos + 1;
    let mut entries: Vec<Entry<'a>> = Vec::new();
    let mut cur: usize = first;
    proof {
        assert(s.skip(1) =~= input@.skip(first as int));
        assert(s[0] == 100);
        assert(entry_views(entries@) =~= Seq::<(Seq<u8>, Value)>::empty());
        assert(input@.subrange(first as int, cur as int) =~= Seq::<u8>::empty());
        lemma_entries_then_nothing(parse_entries(input@.skip(cur as int)));
    }
    while cur < total && input[cur] != 101
        invariant
            first == pos + 1,
            total == input@.len(),
            first <= cur <= total,
            s == input@.skip(pos as int),
            s.len() > 0,
            s[0] == 100,
            s.skip(1) == input@.skip(first as int),
            forall|i: int|
                0 <= i < entries@.len() ==> {
                    &&& (#[trigger] entries@[i]).key.raw@ == bytes_token(entries@[i].key.payload@)
                    &&& entries@[i].value.wf()
                },
            parse_entries(input@.skip(first as int)) == entries_then(
                entry_views(entries@),
                cur - first,
                parse_entries(input@.skip(cur as int)),
            ),
            input@.subrange(first as int, cur as int) == wire_entries(entry_views(entries@)),
        decreases total - cur,
    {
        let ghost here = input@.skip(cur as int);
        assert(here[0] == input@[cur as int]);
        let key = match decode(input, cur) {
            Err(e) => {
                proof {
                    assert(parse_entries(here) == Err::<
                        (Seq<(Seq<u8>, Value)>, int),
                        DecodingErrorKind,
                    >(e.kind));
                    lemma_parse_dict_err(s, e.kind);
                }
                return Err(e);
            },
            Ok(Item::Bytes(f)) => f,
            Ok(_) => {
                proof {
                    assert(parse_entries(here) == Err::<
                        (Seq<(Seq<u8>, Value)>, int),
                        DecodingErrorKind,
                    >(DecodingErrorKind::NonByteStringKey));
                    lemma_parse_dict_err(s, DecodingErrorKind::NonByteStringKey);
                }
                return Err(DecodingError::new(DecodingErrorKind::NonByteStringKey));
            },
        };
        let n = key.raw.len();
        assert(parse_item(here) == Ok::<(Value, int), DecodingErrorKind>(
            (Value::Bytes(key.payload@), n as int),
        ));
        assert(key.raw@ == bytes_token(key.payload@));
        let at: usize = cur + n;
        assert(here.skip(n as int) =~= input@.skip(at as int));
        if at >= total {
            proof {
                assert(parse_entries(here) == Err::<
                    (Seq<(Seq<u8>, Value)>, int),
                    DecodingErrorKind,
                >(DecodingErrorKind::UnexpectedEof));
                lemma_parse_dict_err(s, DecodingErrorKind::UnexpectedEof);
            }
            return Err(DecodingError::new(DecodingErrorKind::UnexpectedEof));
        }
        match decode(input, at) {
            Err(e) => {
                proof {
                    assert(parse_entries(here) == Err::<
                        (Seq<(Seq<u8>, Value)>, int),
                        DecodingErrorKind,
                    >(e.kind));
                    lemma_parse_dict_err(s, e.kind);
                }
                return Err(e);
            },
            Ok(value) => {
                let m = value.raw_length();
                proof {
                    let done = entry_views(entries@);
                    let pair = (key.payload@, value@);
                    let after = parse_entries(input@.skip(at + m));
                    assert(here.skip(n + m) =~= input@.skip(at + m));
                    lemma_parse_entries_step(here, key.payload@, n as int, value@, m as int);
                    lemma_entries_then(done, cur - first, pair, n + m, after);
                    assert(entry_views(entries@.push(Entry { key, value })) =~= done.push(pair));
                    lemma_wire_entries_push(done, key.payload@, value@);
                    assert(input@.subrange(first as int, at + m) =~= input@.subrange(
                        first as int,
                        cur as int,
                    ) + input@.subrange(cur as int, at as int) + input@.subrange(
                        at as int,
                        at + m,
                    ));
                }
                entries.push(Entry { key, value });
                cur = at + m;
            },
        }
    }
    let ghost here = input@.skip(cur as int);
    if cur >= total {
        return Err(DecodingError::new(DecodingErrorKind::UnexpectedEof));
    }
    assert(here[0] == input@[cur as int]);
    let raw = slice_subrange(input, pos, cur + 1);
    let out = Item::Dict(Field::new(raw, entries));
    proof {
        let views = entry_views(entries@);
        assert(out@->Dict_0 =~= views);
        assert(out@ == Value::Dict(views));
        assert(views + Seq::<(Seq<u8>, Value)>::empty() =~= views);
        assert(raw@ =~= seq![100u8] + input@.subrange(first as int, cur as int) + seq![101u8]);
    }
    Ok(out)
}

/// Whether no dictionary inside `item` has two entries with one key.
pub fn has_distinct_keys(item: &Item) -> (out: bool)
    ensures
        out == distinct_keys(item@),
    decreases item,
{
    match item {
        Item::Bytes(_) => true,
        Item::Number(_) => true,
        Item::List(f) => {
            let ghost items = item@->List_0;
            let mut i: usize = 0;
            while i < f.payload.len()
                invariant
                    i <= f.payload@.len(),
                    *item == Item::List(*f),
                    items == item@->List_0,
                    items.len() == f.payload@.len(),
                    forall|k: int| 0 <= k < i ==> distinct_keys(#[trigger] items[k]),
                decreases f.payload@.len() - i,
            {
                assert(items[i as int] == f.payload@[i as int]@);
                if !has_distinct_keys(&f.payload[i]) {
                    return false;
                }
                i += 1;
            }
            true
        },
        Item::Dict(f) => {
            let ghost entries = item@->Dict_0;
            let mut j: usize = 0;
            while j < f.payload.len()
                invariant
                    j <= f.payload@.len(),
                    *item == Item::Dict(*f),
                    entries == item@->Dict_0,
                    entries.len() == f.payload@.len(),
                    forall|a: int, b: int|
                        0 <= a < b < j ==> (#[trigger] entries[a]).0 != (#[trigger] entries[b]).0,
                    forall|k: int| 0 <= k < j ==> distinct_keys((#[trigger] entries[k]).1),
                decreases f.payload@.len() - j,
            {
                assert(entries[j as int] == (
                    f.payload@[j as int].key.payload@,
                    f.payload@[j as int].value@,
                ));
                let mut i: usize = 0;
                while i < j
                    invariant
                        i <= j < f.payload@.len(),
                        *item == Item::Dict(*f),
                        entries == item@->Dict_0,
                        entries.len() == f.payload@.len(),
                        forall|a: int| 0 <= a < i ==> (#[trigger] entries[a]).0 != entries[j as int].0,
                    decreases j - i,
                {
                    assert(entries[i as int].0 == f.payload@[i as int].key.payload@);
                    assert(entries[j as int].0 == f.payload@[j as int].key.payload@);
                    if bytes_eq(f.payload[i].key.payload, f.payload[j].key.payload) {
                        return false;
                    }
                    i += 1;
                }
                if !has_distinct_keys(&f.payload[j].value) {
                    return false;
                }
                j += 1;
            }
            true
        },
    }
}

/// Reads the value that starts at `pos` as `decode` does, but refuses a
/// dictionary with two entries of one key.
pub fn decode_strict<'a>(input: &'a [u8], pos: usize) -> (res: Result<Item<'a>, DecodingError>)
    requires
        pos <= input@.len(),
    ensures
        match res {
            Ok(item) => {
                &&& parse_strict(input@.skip(pos as int)) == Ok::<(Value, int), DecodingErrorKind>(
                    (item@, item.raw().len() as int),
                )
                &&& decoded(input@, pos as int, res)
            },
            Err(e) => parse_strict(input@.skip(pos as int)) == Err::<
                (Value, int),
                DecodingErrorKind,
            >(e.kind),
        },
{
    match decode(input, pos) {
        Ok(item) => if has_distinct_keys(&item) {
            Ok(item)
        } else {
            Err(DecodingError::new(DecodingErrorKind::InvalidDuplicateKey))
        },
        Err(e) => Err(e),
    }
}

/// A reader that walks an input, one value after the other.
pub struct ItemIterator<'a> {
    content: &'a [u8],
    position: usize,
}

impl<'a> ItemIterator<'a> {
    #[verifier::type_invariant]
    spec fn within(self) -> bool {
        self.position <= self.content@.len()
    }

    /// The whole input.
    pub closed spec fn content(&self) -> Seq<u8> {
        self.content@
    }

    /// The part of the input that has not been read yet.
    pub closed spec fn remaining(&self) -> Seq<u8> {
        self.content@.skip(self.position as int)
    }

    /// A reader at the start of `content`.
    pub fn new(content: &'a [u8]) -> (out: Self)
        ensures
            out.content() == content@,
            out.remaining() == content@,
    {
        assert(content@.skip(0) =~= content@);
        Self { content, position: 0 }
    }

    /// The part of the input that has not been read yet.
    pub fn working_data(&self) -> (out: &'a [u8])
        ensures
            out@ == self.remaining(),
    {
        proof {
            use_type_invariant(self);
        }
        let out = slice_subrange(self.content, self.position, self.content.len());
        assert(out@ =~= self.remaining());
        out
    }

    /// Reads the next value and moves behind it. On an error the reader
    /// stays where it is.
    pub fn next(&mut self) -> (res: Option<Result<Item<'a>, DecodingError>>)
        ensures
            final(self).content() == old(self).content(),
            match res {
                Some(Ok(item)) => {
                    let n = item.raw().len() as int;
                    &&& parse_item(old(self).remaining()) == Ok::<(Value, int), DecodingErrorKind>(
                        (item@, n),
                    )
                    &&& item.wf()
                    &&& 0 < n <= old(self).remaining().len()
                    &&& item.raw() == old(self).remaining().take(n)
                    &&& final(self).remaining() == old(self).remaining().skip(n)
                },
                Some(Err(e)) => {
                    &&& parse_item(old(self).remaining()) == Err::<(Value, int), DecodingErrorKind>(
                        e.kind,
                    )
                    &&& final(self).remaining() == old(self).remaining()
                },
                None => false,
            },
    {
        proof {
            use_type_invariant(&*self);
        }
        let total: usize = self.content.len();
        match decode(self.content, self.position) {
            Ok(item) => {
                let n = item.raw_length();
                proof {
                    let rest = self.content@.skip(self.position as int);
                    assert(item.raw() =~= rest.take(n as int));
                    assert(rest.skip(n as int) =~= self.content@.skip(self.position + n));
                }
                self.position = self.position + n;
                Some(Ok(item))
            },
            Err(e) => Some(Err(e)),
        }
    }
}

} // verus!
