//! A value as readable text: byte strings quoted, lists in brackets,
//! dictionaries in braces with their entries in ascending order of the keys.

use crate::bencode_encode::{canonical, lemma_canonical};
use crate::bencode_item::{entry_views, Item};
use crate::bencode_order::{keys_of, order_view, sorted_indices, sorted_order};
use crate::bencode_spec::{valid, Value};
use crate::decimal::{dec_text, decimal_text, is_digit, lemma_dec_text};
use crate::text::{is_utf8, string_from_utf8};
use vstd::prelude::*;
use vstd::utf8::{decode_utf8, pop_first_scalar, valid_first_scalar, valid_utf8, valid_utf8_concat};

verus! {

/// The bytes of a byte string as decimal numbers, one after the other.
pub open spec fn decimal_bytes(bytes: Seq<u8>) -> Seq<u8>
    decreases bytes.len(),
{
    if bytes.len() == 0 {
        seq![]
    } else {
        decimal_bytes(bytes.drop_last()) + dec_text(bytes.last() as nat)
    }
}

/// A byte string as text: in double quotes where it is UTF-8, else its
/// bytes as decimal numbers.
pub open spec fn show_bytes(bytes: Seq<u8>) -> Seq<u8> {
    if valid_utf8(bytes) {
        seq![34u8] + bytes + seq![34u8]
    } else {
        decimal_bytes(bytes)
    }
}

/// A value as text, the entries of a dictionary in the order in which the
/// value holds them.
pub open spec fn show(v: Value) -> Seq<u8>
    decreases v, 1int,
{
    match v {
        Value::Bytes(payload) => show_bytes(payload),
        Value::Number(text) => text,
        Value::List(items) => seq![91u8] + show_items(items) + seq![93u8],
        Value::Dict(entries) => seq![123u8] + show_entries(entries) + seq![125u8],
    }
}

/// The items of a list as text, with commas between them.
pub open spec fn show_items(items: Seq<Value>) -> Seq<u8>
    decreases items, 0int,
{
    if items.len() == 0 {
        seq![]
    } else if items.len() == 1 {
        show(items.last())
    } else {
        show_items(items.drop_last()) + seq![44u8] + show(items.last())
    }
}

/// The entries of a dictionary as text: key, colon and value, with commas
/// between the entries.
pub open spec fn show_entries(entries: Seq<(Seq<u8>, Value)>) -> Seq<u8>
    decreases entries, 0int,
{
    if entries.len() == 0 {
        seq![]
    } else if entries.len() == 1 {
        show_bytes(entries.last().0) + seq![58u8] + show(entries.last().1)
    } else {
        show_entries(entries.drop_last()) + seq![44u8] + show_bytes(entries.last().0) + seq![58u8]
            + show(entries.last().1)
    }
}

/// A value as text, the entries of every dictionary in ascending order of
/// their keys.
pub open spec fn rendering(v: Value) -> Seq<u8> {
    show(canonical(v))
}

/// Whether every byte of `bytes` is an ASCII character.
pub open spec fn is_ascii_bytes(bytes: Seq<u8>) -> bool {
    forall|i: int| 0 <= i < bytes.len() ==> #[trigger] bytes[i] < 128
}

/// ASCII characters are UTF-8.
pub proof fn lemma_ascii_is_utf8(bytes: Seq<u8>)
    requires
        is_ascii_bytes(bytes),
    ensures
        valid_utf8(bytes),
    decreases bytes.len(),
{
    if bytes.len() > 0 {
        let first = bytes[0];
        assert(first < 128);
        assert((first & 0x7f) as u32 <= 0x7f) by (bit_vector);
        assert(valid_first_scalar(bytes));
        let rest = pop_first_scalar(bytes);
        assert(rest =~= bytes.skip(1));
        assert forall|i: int| 0 <= i < rest.len() implies #[trigger] rest[i] < 128 by {
            assert(rest[i] == bytes[i + 1]);
        }
        lemma_ascii_is_utf8(rest);
    }
}

/// Bytes as decimal numbers are ASCII characters.
proof fn lemma_decimal_bytes_ascii(bytes: Seq<u8>)
    ensures
        is_ascii_bytes(decimal_bytes(bytes)),
    decreases bytes.len(),
{
    if bytes.len() > 0 {
        lemma_decimal_bytes_ascii(bytes.drop_last());
        lemma_dec_text(bytes.last() as nat);
        let front = decimal_bytes(bytes.drop_last());
        let digits = dec_text(bytes.last() as nat);
        let all = decimal_bytes(bytes);
        assert forall|i: int| 0 <= i < all.len() implies #[trigger] all[i] < 128 by {
            if i < front.len() {
                assert(all[i] == front[i]);
            } else {
                assert(all[i] == digits[i - front.len()]);
                assert(is_digit(digits[i - front.len()]));
            }
        }
    }
}

/// A byte string as text is UTF-8.
proof fn lemma_show_bytes_utf8(bytes: Seq<u8>)
    ensures
        valid_utf8(show_bytes(bytes)),
{
    if valid_utf8(bytes) {
        let quote = seq![34u8];
        assert(is_ascii_bytes(quote));
        lemma_ascii_is_utf8(quote);
        valid_utf8_concat(quote, bytes);
        valid_utf8_concat(quote + bytes, quote);
    } else {
        lemma_decimal_bytes_ascii(bytes);
        lemma_ascii_is_utf8(decimal_bytes(bytes));
    }
}

/// One ASCII character is UTF-8.
proof fn lemma_one_ascii(byte: u8)
    requires
        byte < 128,
    ensures
        valid_utf8(seq![byte]),
{
    assert(is_ascii_bytes(seq![byte]));
    lemma_ascii_is_utf8(seq![byte]);
}

/// A valid value as text is UTF-8, the entries of its dictionaries in the
/// order in which it holds them.
pub proof fn lemma_show_utf8(v: Value)
    requires
        valid(v),
    ensures
        valid_utf8(show(v)),
    decreases v, 1int,
{
    match v {
        Value::Bytes(payload) => {
            lemma_show_bytes_utf8(payload);
        },
        Value::Number(text) => {
            assert forall|i: int| 0 <= i < text.len() implies #[trigger] text[i] < 128 by {
                if crate::decimal::canonical_decimal(text) {
                    assert(is_digit(text[i]));
                } else if i > 0 {
                    assert(text.skip(1)[i - 1] == text[i]);
                    assert(is_digit(text.skip(1)[i - 1]));
                }
            }
            lemma_ascii_is_utf8(text);
        },
        Value::List(items) => {
            lemma_show_items_utf8(items, items.len() as int);
            assert(items.take(items.len() as int) =~= items);
            lemma_one_ascii(91);
            lemma_one_ascii(93);
            valid_utf8_concat(seq![91u8], show_items(items));
            valid_utf8_concat(seq![91u8] + show_items(items), seq![93u8]);
        },
        Value::Dict(entries) => {
            lemma_show_entries_utf8(entries, entries.len() as int);
            assert(entries.take(entries.len() as int) =~= entries);
            lemma_one_ascii(123);
            lemma_one_ascii(125);
            valid_utf8_concat(seq![123u8], show_entries(entries));
            valid_utf8_concat(seq![123u8] + show_entries(entries), seq![125u8]);
        },
    }
}

/// The first `n` items of a list of valid values as text are UTF-8.
proof fn lemma_show_items_utf8(items: Seq<Value>, n: int)
    requires
        0 <= n <= items.len(),
        forall|i: int| 0 <= i < items.len() ==> valid(#[trigger] items[i]),
    ensures
        valid_utf8(show_items(items.take(n))),
    decreases items, n,
{
    let these = items.take(n);
    if n > 0 {
        assert(these.last() == items[n - 1]);
        lemma_show_utf8(items[n - 1]);
        if n > 1 {
            lemma_show_items_utf8(items, n - 1);
            assert(these.drop_last() =~= items.take(n - 1));
            lemma_one_ascii(44);
            valid_utf8_concat(show_items(these.drop_last()), seq![44u8]);
            valid_utf8_concat(show_items(these.drop_last()) + seq![44u8], show(these.last()));
        }
    }
}

/// The first `n` entries of a dictionary of valid values as text are UTF-8.
proof fn lemma_show_entries_utf8(entries: Seq<(Seq<u8>, Value)>, n: int)
    requires
        0 <= n <= entries.len(),
        forall|i: int| 0 <= i < entries.len() ==> valid((#[trigger] entries[i]).1),
    ensures
        valid_utf8(show_entries(entries.take(n))),
    decreases entries, n,
{
    let these = entries.take(n);
    if n > 0 {
        assert(these.last() == entries[n - 1]);
        assert(valid(entries[n - 1].1));
        lemma_show_utf8(entries[n - 1].1);
        lemma_show_bytes_utf8(these.last().0);
        lemma_one_ascii(58);
        let key = show_bytes(these.last().0);
        let value = show(these.last().1);
        valid_utf8_concat(key, seq![58u8]);
        valid_utf8_concat(key + seq![58u8], value);
        if n > 1 {
            lemma_show_entries_utf8(entries, n - 1);
            assert(these.drop_last() =~= entries.take(n - 1));
            lemma_one_ascii(44);
            let front = show_entries(these.drop_last());
            valid_utf8_concat(front, seq![44u8]);
            valid_utf8_concat(front + seq![44u8], key);
            valid_utf8_concat(front + seq![44u8] + key, seq![58u8]);
            valid_utf8_concat(front + seq![44u8] + key + seq![58u8], value);
        }
    }
}

/// The rendering of a valid value is UTF-8, so that its text is the text
/// that the rendering encodes.
pub proof fn lemma_rendering_is_text(v: Value)
    requires
        valid(v),
    ensures
        valid_utf8(rendering(v)),
{
    lemma_canonical(v);
    lemma_show_utf8(canonical(v));
}

/// Appends a byte string as text.
fn show_bytes_into(payload: &[u8], out: &mut Vec<u8>)
    ensures
        final(out)@ == old(out)@ + show_bytes(payload@),
{
    let ghost before = out@;
    if is_utf8(payload) {
        out.push(34u8);
        out.extend_from_slice(payload);
        out.push(34u8);
        assert(out@ =~= before + show_bytes(payload@));
    } else {
        let mut i: usize = 0;
        assert(payload@.take(0) =~= Seq::<u8>::empty());
        while i < payload.len()
            invariant
                i <= payload@.len(),
                out@ == before + decimal_bytes(payload@.take(i as int)),
            decreases payload@.len() - i,
        {
            let digits = decimal_text(payload[i] as u64);
            out.extend_from_slice(digits.as_slice());
            proof {
                let next = payload@.take(i + 1);
                assert(next.drop_last() =~= payload@.take(i as int));
                assert(next.last() == payload@[i as int]);
                assert(out@ =~= before + decimal_bytes(next));
            }
            i += 1;
        }
        assert(payload@.take(i as int) =~= payload@);
    }
}

/// Appends `item` as text.
pub fn render_into(item: &Item, out: &mut Vec<u8>)
    ensures
        final(out)@ == old(out)@ + rendering(item@),
    decreases item,
{
    let ghost before = out@;
    match item {
        Item::Bytes(f) => {
            show_bytes_into(f.payload, out);
        },
        Item::Number(f) => {
            out.extend_from_slice(f.payload);
        },
        Item::List(f) => {
            let ghost items = canonical(item@)->List_0;
            out.push(91u8);
            let mut i: usize = 0;
            assert(items.take(0) =~= Seq::<Value>::empty());
            while i < f.payload.len()
                invariant
                    i <= f.payload@.len(),
                    *item == Item::List(*f),
                    items == canonical(item@)->List_0,
                    items.len() == f.payload@.len(),
                    out@ == before + seq![91u8] + show_items(items.take(i as int)),
                decreases f.payload@.len() - i,
            {
                if i > 0 {
                    out.push(44u8);
                }
                render_into(&f.payload[i], out);
                proof {
                    assert(item@->List_0[i as int] == f.payload@[i as int]@);
                    assert(items[i as int] == canonical(f.payload@[i as int]@));
                    let next = items.take(i + 1);
                    assert(next.drop_last() =~= items.take(i as int));
                    assert(next.last() == items[i as int]);
                    assert(out@ =~= before + seq![91u8] + show_items(next));
                }
                i += 1;
            }
            out.push(93u8);
            proof {
                assert(items.take(i as int) =~= items);
                assert(out@ =~= before + show(canonical(item@)));
            }
        },
        Item::Dict(f) => {
            let ghost views = entry_views(f.payload@);
            let ghost entries = canonical(item@)->Dict_0;
            let ghost indices = sorted_indices(keys_of(views));
            assert(item@->Dict_0 =~= views);
            let order = sorted_order(&f.payload);
            out.push(123u8);
            let mut j: usize = 0;
            assert(entries.take(0) =~= Seq::<(Seq<u8>, Value)>::empty());
            while j < order.len()
                invariant
                    j <= order@.len(),
                    *item == Item::Dict(*f),
                    views == entry_views(f.payload@),
                    item@ == Value::Dict(views),
                    entries == canonical(item@)->Dict_0,
                    indices == sorted_indices(keys_of(views)),
                    order_view(order@) == indices,
                    entries.len() == order@.len(),
                    forall|k: int| 0 <= k < order@.len() ==> (#[trigger] order@[k]) < f.payload@.len(),
                    out@ == before + seq![123u8] + show_entries(entries.take(j as int)),
                decreases order@.len() - j,
            {
                let at: usize = order[j];
                let entry = &f.payload[at];
                if j > 0 {
                    out.push(44u8);
                }
                show_bytes_into(entry.key.payload, out);
                out.push(58u8);
                render_into(&entry.value, out);
                proof {
                    assert(indices[j as int] == at);
                    assert(views[at as int] == (entry.key.payload@, entry.value@));
                    assert(entries[j as int] == (entry.key.payload@, canonical(entry.value@)));
                    let next = entries.take(j + 1);
                    assert(next.drop_last() =~= entries.take(j as int));
                    assert(next.last() == entries[j as int]);
                    assert(out@ =~= before + seq![123u8] + show_entries(next));
                }
                j += 1;
            }
            out.push(125u8);
            proof {
                assert(entries.take(j as int) =~= entries);
                assert(out@ =~= before + show(canonical(item@)));
            }
        },
    }
}

/// `item` as text, in bytes.
pub fn render(item: &Item) -> (out: Vec<u8>)
    ensures
        out@ == rendering(item@),
{
    let mut out: Vec<u8> = Vec::new();
    render_into(item, &mut out);
    assert(out@ =~= rendering(item@));
    out
}

/// `item` as text. Where an integer of `item` holds bytes that are not
/// text, so that the rendering is not UTF-8, the text is empty.
pub fn render_text(item: &Item) -> (out: String)
    ensures
        out@ == (if valid_utf8(rendering(item@)) {
            decode_utf8(rendering(item@))
        } else {
            Seq::<char>::empty()
        }),
{
    match string_from_utf8(render(item)) {
        Some(text) => text,
        None => String::new(),
    }
}

impl<'a> Item<'a> {
    /// This item as text: the text that its rendering encodes, which every
    /// item that the decoder built has.
    pub fn to_string(&self) -> (out: String)
        ensures
            out@ == (if valid_utf8(rendering(self@)) {
                decode_utf8(rendering(self@))
            } else {
                Seq::<char>::empty()
            }),
            valid(self@) ==> out@ == decode_utf8(rendering(self@)),
    {
        proof {
            if valid(self@) {
                lemma_rendering_is_text(self@);
            }
        }
        render_text(self)
    }
}

} // verus!
