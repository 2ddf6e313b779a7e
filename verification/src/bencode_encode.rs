//! The bencode encoder: the canonical bytes of a value, with the entries of
//! every dictionary in ascending order of their keys.

use crate::bedecode::{lemma_wire_entries_push, lemma_wire_items_push};
use crate::bencode_item::{entry_views, Item};
use crate::bencode_laws::{lemma_parse_item_sound, lemma_parse_wire};
use crate::bencode_order::{
    ascending, first_with_key, keys_ascending, keys_of, lemma_dict_get_first,
    lemma_sorted_ascending, lemma_sorted_first, lemma_sorted_of_ascending, order_view,
    sorted_indices, sorted_order,
};
use crate::bencode_spec::{
    dict_get, number_token, parse_item, valid, wire, wire_entries, wire_items, DecodingErrorKind,
    Value,
};
use crate::bencode_tokens::push_bytes_token;
use crate::byte_order::{lemma_lex_less_irreflexive, lex_less};
use vstd::prelude::*;

verus! {

/// The canonical form of a value: the same value with the entries of every
/// dictionary in ascending order of their keys, and of the entries with one
/// key only the first.
pub open spec fn canonical(v: Value) -> Value
    decreases v,
{
    match v {
        Value::Bytes(_) => v,
        Value::Number(_) => v,
        Value::List(items) => Value::List(
            Seq::new(
                items.len(),
                |i: int|
                    if 0 <= i < items.len() {
                        canonical(items[i])
                    } else {
                        Value::Bytes(seq![])
                    },
            ),
        ),
        Value::Dict(entries) => {
            let order = sorted_indices(keys_of(entries));
            Value::Dict(
                Seq::new(
                    order.len(),
                    |j: int|
                        if 0 <= j < order.len() && 0 <= order[j] < entries.len() {
                            (entries[order[j]].0, canonical(entries[order[j]].1))
                        } else {
                            (seq![], Value::Bytes(seq![]))
                        },
                ),
            )
        },
    }
}

/// Whether the keys of every dictionary inside `v` ascend strictly.
pub open spec fn is_canonical(v: Value) -> bool
    decreases v,
{
    match v {
        Value::Bytes(_) => true,
        Value::Number(_) => true,
        Value::List(items) => forall|i: int|
            0 <= i < items.len() ==> is_canonical(#[trigger] items[i]),
        Value::Dict(entries) => {
            &&& keys_ascending(keys_of(entries))
            &&& forall|i: int| 0 <= i < entries.len() ==> is_canonical((#[trigger] entries[i]).1)
        },
    }
}

/// The bytes that the encoder writes for a value.
pub open spec fn encoding(v: Value) -> Seq<u8> {
    wire(canonical(v))
}

/// The canonical form of a value is canonical, and valid where the value is.
pub proof fn lemma_canonical(v: Value)
    ensures
        is_canonical(canonical(v)),
        valid(v) ==> valid(canonical(v)),
    decreases v,
{
    match v {
        Value::Bytes(_) => {},
        Value::Number(_) => {},
        Value::List(items) => {
            let out = canonical(v)->List_0;
            assert forall|i: int| 0 <= i < out.len() implies is_canonical(#[trigger] out[i]) && (
            valid(v) ==> valid(out[i])) by {
                lemma_canonical(items[i]);
            }
        },
        Value::Dict(entries) => {
            let keys = keys_of(entries);
            let order = sorted_indices(keys);
            lemma_sorted_ascending(keys, keys.len() as int);
            let out = canonical(v)->Dict_0;
            assert forall|i: int| 0 <= i < out.len() implies is_canonical((#[trigger] out[i]).1)
                && (valid(v) ==> valid(out[i].1)) by {
                lemma_canonical(entries[order[i]].1);
            }
            let out_keys = keys_of(out);
            assert forall|a: int, b: int| 0 <= a < b < out_keys.len() implies lex_less(
                #[trigger] out_keys[a],
                #[trigger] out_keys[b],
            ) by {
                assert(out_keys[a] == keys[order[a]]);
                assert(out_keys[b] == keys[order[b]]);
            }
        },
    }
}

/// A canonical value is its own canonical form.
pub proof fn lemma_canonical_fixed(v: Value)
    requires
        is_canonical(v),
    ensures
        canonical(v) == v,
    decreases v,
{
    match v {
        Value::Bytes(_) => {},
        Value::Number(_) => {},
        Value::List(items) => {
            let out = canonical(v)->List_0;
            assert forall|i: int| 0 <= i < out.len() implies out[i] == items[i] by {
                lemma_canonical_fixed(items[i]);
            }
            assert(out =~= items);
        },
        Value::Dict(entries) => {
            let keys = keys_of(entries);
            let order = sorted_indices(keys);
            lemma_sorted_of_ascending(keys, keys.len() as int);
            let out = canonical(v)->Dict_0;
            assert forall|i: int| 0 <= i < out.len() implies out[i] == entries[i] by {
                assert(order[i] == i);
                lemma_canonical_fixed(entries[i].1);
            }
            assert(out =~= entries);
        },
    }
}

/// The canonical form of a dictionary holds under every key what the
/// dictionary held under it: the canonical form of the value of the first
/// entry with that key.
pub proof fn lemma_canonical_lookup(entries: Seq<(Seq<u8>, Value)>, key: Seq<u8>)
    ensures
        canonical(Value::Dict(entries)) is Dict,
        dict_get(canonical(Value::Dict(entries))->Dict_0, key) == match dict_get(entries, key) {
            Some(v) => Some(canonical(v)),
            None => None,
        },
{
    let keys = keys_of(entries);
    let order = sorted_indices(keys);
    let out = canonical(Value::Dict(entries))->Dict_0;
    lemma_sorted_first(keys, keys.len() as int);
    lemma_sorted_ascending(keys, keys.len() as int);
    lemma_dict_get_first(entries, key);
    lemma_dict_get_first(out, key);
    assert forall|j: int| 0 <= j < out.len() implies (#[trigger] out[j]).0 == keys[order[j]] by {}
    match dict_get(entries, key) {
        Some(v) => {
            let f = choose|f: int| first_with_key(keys, f) && #[trigger] entries[f] == (key, v);
            assert(order.contains(f));
            let j = choose|j: int| 0 <= j < order.len() && order[j] == f;
            assert(out[j] == (key, canonical(v)));
            match dict_get(out, key) {
                Some(w) => {
                    let g = choose|g: int|
                        first_with_key(keys_of(out), g) && #[trigger] out[g] == (key, w);
                    lemma_lex_less_irreflexive(key);
                    if g < j {
                        assert(lex_less(keys[order[g]], keys[order[j]]));
                    } else if j < g {
                        assert(lex_less(keys[order[j]], keys[order[g]]));
                    }
                },
                None => {
                    assert(out[j].0 != key);
                },
            }
        },
        None => {
            match dict_get(out, key) {
                Some(w) => {
                    let g = choose|g: int|
                        first_with_key(keys_of(out), g) && #[trigger] out[g] == (key, w);
                    assert(entries[order[g]].0 == keys[order[g]]);
                },
                None => {},
            }
        },
    }
}

/// What was read from input whose dictionaries have their keys in ascending
/// order is written back as the bytes it was read from.
pub proof fn lemma_encode_of_decoded(input: Seq<u8>)
    requires
        parse_item(input) is Ok,
        is_canonical(parse_item(input)->Ok_0.0),
    ensures
        encoding(parse_item(input)->Ok_0.0) == input.take(parse_item(input)->Ok_0.1),
{
    lemma_parse_item_sound(input);
    lemma_canonical_fixed(parse_item(input)->Ok_0.0);
}

/// What the encoder writes for a value that was read is read as the
/// canonical form of that value, which is the value itself where its
/// dictionaries had their keys in ascending order; and writing what is read
/// from there gives the same bytes again.
pub proof fn lemma_decode_of_encoded(input: Seq<u8>)
    requires
        parse_item(input) is Ok,
    ensures
        ({
            let v = parse_item(input)->Ok_0.0;
            &&& parse_item(encoding(v)) == Ok::<(Value, int), DecodingErrorKind>(
                (canonical(v), encoding(v).len() as int),
            )
            &&& canonical(canonical(v)) == canonical(v)
            &&& is_canonical(v) ==> canonical(v) == v
        }),
{
    let v = parse_item(input)->Ok_0.0;
    lemma_parse_item_sound(input);
    lemma_canonical(v);
    lemma_parse_wire(canonical(v), Seq::<u8>::empty());
    assert(wire(canonical(v)) + Seq::<u8>::empty() =~= wire(canonical(v)));
    lemma_canonical_fixed(canonical(v));
    if is_canonical(v) {
        lemma_canonical_fixed(v);
    }
}

/// Appends the canonical bytes of `item`.
pub fn encode_into(item: &Item, out: &mut Vec<u8>)
    ensures
        final(out)@ == old(out)@ + encoding(item@),
    decreases item,
{
    let ghost before = out@;
    match item {
        Item::Bytes(f) => {
            push_bytes_token(out, f.payload);
        },
        Item::Number(f) => {
            out.push(105u8);
            out.extend_from_slice(f.payload);
            out.push(101u8);
            assert(out@ =~= before + number_token(f.payload@));
        },
        Item::List(f) => {
            let ghost items = canonical(item@)->List_0;
            out.push(108u8);
            let mut i: usize = 0;
            assert(items.take(0) =~= Seq::<Value>::empty());
            while i < f.payload.len()
                invariant
                    i <= f.payload@.len(),
                    *item == Item::List(*f),
                    items == canonical(item@)->List_0,
                    items.len() == f.payload@.len(),
                    out@ == before + seq![108u8] + wire_items(items.take(i as int)),
                decreases f.payload@.len() - i,
            {
                let ghost so_far = out@;
                encode_into(&f.payload[i], out);
                proof {
                    assert(item@->List_0[i as int] == f.payload@[i as int]@);
                    assert(items[i as int] == canonical(f.payload@[i as int]@));
                    lemma_wire_items_push(items.take(i as int), items[i as int]);
                    assert(items.take(i + 1) =~= items.take(i as int).push(items[i as int]));
                    assert(out@ =~= before + seq![108u8] + wire_items(items.take(i + 1)));
                }
                i += 1;
            }
            out.push(101u8);
            proof {
                assert(items.take(i as int) =~= items);
                assert(out@ =~= before + wire(canonical(item@)));
            }
        },
        Item::Dict(f) => {
            let ghost views = entry_views(f.payload@);
            let ghost entries = canonical(item@)->Dict_0;
            let ghost indices = sorted_indices(keys_of(views));
            assert(item@->Dict_0 =~= views);
            let order = sorted_order(&f.payload);
            out.push(100u8);
            let mut j: usize = 0;
            assert(entries.take(0) =~= Seq::<(Seq<u8>, Value)>::empty());
            while j < order.len()
                invariant
                    j <= order@.len(),
                    *item == Item::Dict(*f),
                    views == entry_views(f.payload@),
                    item@ == Value::Dict(views),
                    entries == canonical(item@)->Dict_0,
                    indices == sorted_indices(keys_of(views)),
                    order_view(order@) == indices,
                    entries.len() == order@.len(),
                    forall|k: int| 0 <= k < order@.len() ==> (#[trigger] order@[k]) < f.payload@.len(),
                    out@ == before + seq![100u8] + wire_entries(entries.take(j as int)),
                decreases order@.len() - j,
            {
                let at: usize = order[j];
                let entry = &f.payload[at];
                push_bytes_token(out, entry.key.payload);
                encode_into(&entry.value, out);
                proof {
                    assert(indices[j as int] == at);
                    assert(views[at as int] == (entry.key.payload@, entry.value@));
                    assert(entries[j as int] == (entry.key.payload@, canonical(entry.value@)));
                    lemma_wire_entries_push(
                        entries.take(j as int),
                        entry.key.payload@,
                        canonical(entry.value@),
                    );
                    assert(entries.take(j + 1) =~= entries.take(j as int).push(entries[j as int]));
                    assert(out@ =~= before + seq![100u8] + wire_entries(entries.take(j + 1)));
                }
                j += 1;
            }
            out.push(101u8);
            proof {
                assert(entries.take(j as int) =~= entries);
                assert(out@ =~= before + wire(canonical(item@)));
            }
        },
    }
}

/// The canonical bytes of `item`: every token written again, the entries
/// of each dictionary in ascending order of their keys.
pub fn encode(item: &Item) -> (out: Vec<u8>)
    ensures
        out@ == encoding(item@),
{
    let mut out: Vec<u8> = Vec::new();
    encode_into(item, &mut out);
    assert(out@ =~= encoding(item@));
    out
}

} // verus!
