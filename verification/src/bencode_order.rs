//! The order in which the entries of a dictionary are written: ascending
//! by key, and of the entries with one key the first.

use crate::bencode_item::{entry_views, Entry};
use crate::bencode_spec::{dict_get, Value};
use crate::byte_order::{
    bytes_eq, bytes_less, lemma_lex_less_irreflexive, lemma_lex_less_transitive, lex_less,
};
use vstd::prelude::*;

verus! {

/// The keys of a sequence of entries.
pub open spec fn keys_of(entries: Seq<(Seq<u8>, Value)>) -> Seq<Seq<u8>> {
    Seq::new(entries.len(), |i: int| entries[i].0)
}

/// The indices `sorted` with the index `i` put where its key belongs,
/// unless an index with the same key is among them.
pub open spec fn insert_index(keys: Seq<Seq<u8>>, sorted: Seq<int>, i: int) -> Seq<int>
    decreases sorted.len(),
{
    if sorted.len() == 0 {
        seq![i]
    } else if lex_less(keys[sorted.last()], keys[i]) {
        sorted.push(i)
    } else if keys[sorted.last()] == keys[i] {
        sorted
    } else {
        insert_index(keys, sorted.drop_last(), i).push(sorted.last())
    }
}

/// The indices of the first `n` keys in the order in which their entries
/// are written: each index put in turn where its key belongs.
pub open spec fn sorted_upto(keys: Seq<Seq<u8>>, n: int) -> Seq<int>
    decreases n,
{
    if n <= 0 {
        seq![]
    } else {
        insert_index(keys, sorted_upto(keys, n - 1), n - 1)
    }
}

/// The indices of the keys in the order in which their entries are written.
pub open spec fn sorted_indices(keys: Seq<Seq<u8>>) -> Seq<int> {
    sorted_upto(keys, keys.len() as int)
}

/// Whether `order` holds indices below `n` whose keys ascend strictly.
pub open spec fn ascending(keys: Seq<Seq<u8>>, order: Seq<int>, n: int) -> bool {
    &&& forall|j: int| 0 <= j < order.len() ==> 0 <= #[trigger] order[j] < n
    &&& forall|a: int, b: int|
        0 <= a < b < order.len() ==> lex_less(keys[#[trigger] order[a]], keys[#[trigger] order[b]])
}

/// Whether the keys themselves ascend strictly.
pub open spec fn keys_ascending(keys: Seq<Seq<u8>>) -> bool {
    forall|a: int, b: int|
        0 <= a < b < keys.len() ==> lex_less(#[trigger] keys[a], #[trigger] keys[b])
}

/// Putting an index where its key belongs is putting it at `p`, when the
/// keys before `p` come before its key and the keys from `p` on come after.
pub proof fn lemma_insert_index_at(keys: Seq<Seq<u8>>, sorted: Seq<int>, i: int, p: int)
    requires
        0 <= p <= sorted.len(),
        forall|j: int|
            p <= j < sorted.len() ==> !lex_less(keys[#[trigger] sorted[j]], keys[i])
                && keys[sorted[j]] != keys[i],
        p > 0 ==> lex_less(keys[sorted[p - 1]], keys[i]),
    ensures
        insert_index(keys, sorted, i) == sorted.insert(p, i),
    decreases sorted.len() - p,
{
    if p == sorted.len() {
        assert(sorted.insert(p, i) =~= sorted.push(i));
    } else {
        let front = sorted.drop_last();
        assert(!lex_less(keys[sorted[sorted.len() - 1]], keys[i]));
        assert forall|j: int| p <= j < front.len() implies !lex_less(
            keys[#[trigger] front[j]],
            keys[i],
        ) && keys[front[j]] != keys[i] by {
            assert(front[j] == sorted[j]);
        }
        if p > 0 {
            assert(front[p - 1] == sorted[p - 1]);
        }
        lemma_insert_index_at(keys, front, i, p);
        assert(front.insert(p, i).push(sorted.last()) =~= sorted.insert(p, i));
    }
}

/// Putting an index among indices of which one has the same key changes
/// nothing, when the keys behind that one come after its key.
pub proof fn lemma_insert_index_known(keys: Seq<Seq<u8>>, sorted: Seq<int>, i: int, q: int)
    requires
        0 <= q < sorted.len(),
        keys[sorted[q]] == keys[i],
        forall|j: int|
            q < j < sorted.len() ==> !lex_less(keys[#[trigger] sorted[j]], keys[i])
                && keys[sorted[j]] != keys[i],
    ensures
        insert_index(keys, sorted, i) == sorted,
    decreases sorted.len() - q,
{
    lemma_lex_less_irreflexive(keys[i]);
    if q == sorted.len() - 1 {
    } else {
        let front = sorted.drop_last();
        assert(!lex_less(keys[sorted[sorted.len() - 1]], keys[i]));
        assert forall|j: int| q < j < front.len() implies !lex_less(
            keys[#[trigger] front[j]],
            keys[i],
        ) && keys[front[j]] != keys[i] by {
            assert(front[j] == sorted[j]);
        }
        assert(front[q] == sorted[q]);
        lemma_insert_index_known(keys, front, i, q);
        assert(front.push(sorted.last()) =~= sorted);
    }
}

/// The indices in the order of writing are indices of the keys, and their
/// keys ascend strictly.
pub proof fn lemma_sorted_ascending(keys: Seq<Seq<u8>>, n: int)
    requires
        0 <= n <= keys.len(),
    ensures
        ascending(keys, sorted_upto(keys, n), n),
    decreases n,
{
    if n > 0 {
        lemma_sorted_ascending(keys, n - 1);
        lemma_insert_ascending(keys, sorted_upto(keys, n - 1), n - 1);
    }
}

/// Putting an index where its key belongs keeps the keys ascending.
proof fn lemma_insert_ascending(keys: Seq<Seq<u8>>, sorted: Seq<int>, i: int)
    requires
        0 <= i < keys.len(),
        ascending(keys, sorted, i),
    ensures
        ascending(keys, insert_index(keys, sorted, i), i + 1),
        forall|j: int|
            0 <= j < insert_index(keys, sorted, i).len() ==> (#[trigger] insert_index(
                keys,
                sorted,
                i,
            )[j]) == i || sorted.contains(insert_index(keys, sorted, i)[j]),
        sorted.len() > 0 && !lex_less(keys[sorted.last()], keys[i]) && keys[sorted.last()]
            != keys[i] ==> insert_index(keys, sorted, i).last() == sorted.last(),
    decreases sorted.len(),
{
    let out = insert_index(keys, sorted, i);
    if sorted.len() == 0 {
    } else if lex_less(keys[sorted.last()], keys[i]) {
        assert forall|a: int, b: int| 0 <= a < b < out.len() implies lex_less(
            keys[#[trigger] out[a]],
            keys[#[trigger] out[b]],
        ) by {
            if b == out.len() - 1 {
                if a < sorted.len() - 1 {
                    assert(lex_less(keys[sorted[a]], keys[sorted[sorted.len() - 1]]));
                    lemma_lex_less_transitive(keys[sorted[a]], keys[sorted.last()], keys[i]);
                }
            } else {
                assert(lex_less(keys[sorted[a]], keys[sorted[b]]));
            }
        }
        assert forall|j: int| 0 <= j < out.len() implies (#[trigger] out[j]) == i
            || sorted.contains(out[j]) by {
            if j < sorted.len() {
                assert(sorted[j] == out[j]);
            }
        }
    } else if keys[sorted.last()] == keys[i] {
        assert forall|j: int| 0 <= j < out.len() implies (#[trigger] out[j]) == i
            || sorted.contains(out[j]) by {
            assert(sorted[j] == out[j]);
        }
    } else {
        let front = sorted.drop_last();
        let last = sorted.last();
        assert forall|a: int, b: int| 0 <= a < b < front.len() implies lex_less(
            keys[#[trigger] front[a]],
            keys[#[trigger] front[b]],
        ) by {
            assert(lex_less(keys[sorted[a]], keys[sorted[b]]));
        }
        assert forall|j: int| 0 <= j < front.len() implies 0 <= #[trigger] front[j] < i by {
            assert(front[j] == sorted[j]);
        }
        lemma_insert_ascending(keys, front, i);
        let inner = insert_index(keys, front, i);
        crate::byte_order::lemma_lex_less_total(keys[last], keys[i]);
        assert(lex_less(keys[i], keys[last]));
        assert forall|a: int, b: int| 0 <= a < b < out.len() implies lex_less(
            keys[#[trigger] out[a]],
            keys[#[trigger] out[b]],
        ) by {
            if b == out.len() - 1 {
                assert(out[a] == inner[a]);
                if inner[a] == i {
                } else {
                    assert(front.contains(inner[a]));
                    let k = choose|k: int| 0 <= k < front.len() && front[k] == inner[a];
                    assert(sorted[k] == front[k]);
                    assert(lex_less(keys[sorted[k]], keys[sorted[sorted.len() - 1]]));
                }
            } else {
                assert(out[a] == inner[a] && out[b] == inner[b]);
            }
        }
        assert forall|j: int| 0 <= j < out.len() implies 0 <= #[trigger] out[j] < i + 1 by {
            if j < inner.len() {
                assert(out[j] == inner[j]);
            } else {
                assert(out[j] == sorted[sorted.len() - 1]);
            }
        }
        assert forall|j: int| 0 <= j < out.len() implies (#[trigger] out[j]) == i
            || sorted.contains(out[j]) by {
            if j < inner.len() {
                assert(out[j] == inner[j]);
                if inner[j] != i {
                    let k = choose|k: int| 0 <= k < front.len() && front[k] == inner[j];
                    assert(sorted[k] == front[k]);
                }
            } else {
                assert(out[j] == sorted[sorted.len() - 1]);
            }
        }
    }
}

/// Keys that ascend strictly are written in the order in which they stand.
pub proof fn lemma_sorted_of_ascending(keys: Seq<Seq<u8>>, n: int)
    requires
        0 <= n <= keys.len(),
        keys_ascending(keys),
    ensures
        sorted_upto(keys, n) == Seq::new(n as nat, |j: int| j),
    decreases n,
{
    if n > 0 {
        lemma_sorted_of_ascending(keys, n - 1);
        let before = Seq::new((n - 1) as nat, |j: int| j);
        if n - 1 > 0 {
            assert(before[n - 2] == n - 2);
            assert(lex_less(keys[n - 2], keys[n - 1]));
        }
        lemma_insert_index_at(keys, before, n - 1, n - 1);
        assert(before.insert(n - 1, n - 1) =~= Seq::new(n as nat, |j: int| j));
    } else {
        assert(sorted_upto(keys, n) =~= Seq::new(n as nat, |j: int| j));
    }
}

/// Whether `i` is the first index with its key.
pub open spec fn first_with_key(keys: Seq<Seq<u8>>, i: int) -> bool {
    &&& 0 <= i < keys.len()
    &&& forall|k: int| 0 <= k < i ==> #[trigger] keys[k] != keys[i]
}

/// Putting an index among ascending indices keeps every index that was
/// there, and adds the new index unless its key was there.
proof fn lemma_insert_members(keys: Seq<Seq<u8>>, sorted: Seq<int>, i: int)
    requires
        0 <= i < keys.len(),
        ascending(keys, sorted, i),
    ensures
        forall|j: int|
            0 <= j < sorted.len() ==> insert_index(keys, sorted, i).contains(#[trigger] sorted[j]),
        (exists|j: int| 0 <= j < sorted.len() && keys[#[trigger] sorted[j]] == keys[i])
            ==> insert_index(keys, sorted, i) == sorted,
        !(exists|j: int| 0 <= j < sorted.len() && keys[#[trigger] sorted[j]] == keys[i])
            ==> insert_index(keys, sorted, i).contains(i),
    decreases sorted.len(),
{
    let out = insert_index(keys, sorted, i);
    if sorted.len() == 0 {
        assert(out[0] == i);
    } else if lex_less(keys[sorted.last()], keys[i]) {
        assert forall|j: int| 0 <= j < sorted.len() implies out.contains(#[trigger] sorted[j]) by {
            assert(out[j] == sorted[j]);
        }
        assert(out[out.len() - 1] == i);
        assert forall|j: int| 0 <= j < sorted.len() implies keys[#[trigger] sorted[j]]
            != keys[i] by {
            if j < sorted.len() - 1 {
                assert(lex_less(keys[sorted[j]], keys[sorted[sorted.len() - 1]]));
                lemma_lex_less_transitive(keys[sorted[j]], keys[sorted.last()], keys[i]);
            }
            lemma_lex_less_irreflexive(keys[i]);
        }
    } else if keys[sorted.last()] == keys[i] {
        assert forall|j: int| 0 <= j < sorted.len() implies out.contains(#[trigger] sorted[j]) by {
            assert(out[j] == sorted[j]);
        }
    } else {
        let front = sorted.drop_last();
        let last = sorted.last();
        assert forall|a: int, b: int| 0 <= a < b < front.len() implies lex_less(
            keys[#[trigger] front[a]],
            keys[#[trigger] front[b]],
        ) by {
            assert(lex_less(keys[sorted[a]], keys[sorted[b]]));
        }
        assert forall|j: int| 0 <= j < front.len() implies 0 <= #[trigger] front[j] < i by {
            assert(front[j] == sorted[j]);
        }
        lemma_insert_members(keys, front, i);
        let inner = insert_index(keys, front, i);
        assert forall|j: int| 0 <= j < sorted.len() implies out.contains(#[trigger] sorted[j]) by {
            if j < front.len() {
                assert(inner.contains(front[j]));
                let k = choose|k: int| 0 <= k < inner.len() && inner[k] == front[j];
                assert(out[k] == inner[k]);
            } else {
                assert(out[out.len() - 1] == sorted[j]);
            }
        }
        if exists|j: int| 0 <= j < sorted.len() && keys[#[trigger] sorted[j]] == keys[i] {
            let j = choose|j: int| 0 <= j < sorted.len() && keys[#[trigger] sorted[j]] == keys[i];
            assert(front[j] == sorted[j]);
            assert(inner == front);
            assert(out =~= sorted);
        } else {
            assert forall|j: int| 0 <= j < front.len() implies keys[#[trigger] front[j]]
                != keys[i] by {
                assert(front[j] == sorted[j]);
            }
            let k = choose|k: int| 0 <= k < inner.len() && inner[k] == i;
            assert(out[k] == inner[k]);
        }
    }
}

/// The indices in the order of writing are the first indices of their
/// keys, and every key has its first index among them.
pub proof fn lemma_sorted_first(keys: Seq<Seq<u8>>, n: int)
    requires
        0 <= n <= keys.len(),
    ensures
        forall|j: int|
            0 <= j < sorted_upto(keys, n).len() ==> first_with_key(
                keys,
                #[trigger] sorted_upto(keys, n)[j],
            ),
        forall|i: int|
            0 <= i < n && first_with_key(keys, i) ==> #[trigger] sorted_upto(keys, n).contains(i),
    decreases n,
{
    if n > 0 {
        let before = sorted_upto(keys, n - 1);
        let out = sorted_upto(keys, n);
        lemma_sorted_first(keys, n - 1);
        lemma_sorted_ascending(keys, n - 1);
        lemma_insert_ascending(keys, before, n - 1);
        lemma_insert_members(keys, before, n - 1);
        let known = exists|j: int| 0 <= j < before.len() && keys[#[trigger] before[j]] == keys[n - 1];
        assert forall|j: int| 0 <= j < out.len() implies first_with_key(keys, #[trigger] out[j]) by {
            if out[j] == n - 1 {
                if known {
                    assert(out == before);
                    assert(before[j] < n - 1);
                } else {
                    assert forall|k: int| 0 <= k < n - 1 implies #[trigger] keys[k] != keys[n
                        - 1] by {
                        if keys[k] == keys[n - 1] {
                            let f = lemma_first_index(keys, k);
                            assert(before.contains(f));
                            let j2 = choose|j2: int| 0 <= j2 < before.len() && before[j2] == f;
                            assert(keys[before[j2]] == keys[n - 1]);
                        }
                    }
                }
            } else {
                assert(before.contains(out[j]));
                let k = choose|k: int| 0 <= k < before.len() && before[k] == out[j];
                assert(first_with_key(keys, before[k]));
            }
        }
        assert forall|i: int| 0 <= i < n && first_with_key(keys, i) implies #[trigger] out.contains(
            i,
        ) by {
            if i < n - 1 {
                assert(before.contains(i));
                let k = choose|k: int| 0 <= k < before.len() && before[k] == i;
                assert(out.contains(before[k]));
            } else {
                if known {
                    let j = choose|j: int|
                        0 <= j < before.len() && keys[#[trigger] before[j]] == keys[n - 1];
                    assert(before[j] < n - 1);
                    assert(keys[before[j]] == keys[i]);
                }
            }
        }
    }
}

/// The first index with the key of `i`.
pub proof fn lemma_first_index(keys: Seq<Seq<u8>>, i: int) -> (f: int)
    requires
        0 <= i < keys.len(),
    ensures
        0 <= f <= i,
        keys[f] == keys[i],
        first_with_key(keys, f),
    decreases i,
{
    if exists|k: int| 0 <= k < i && #[trigger] keys[k] == keys[i] {
        let k = choose|k: int| 0 <= k < i && #[trigger] keys[k] == keys[i];
        lemma_first_index(keys, k)
    } else {
        i
    }
}

/// The value under a key is the value of the first entry with the key.
pub proof fn lemma_dict_get_first(entries: Seq<(Seq<u8>, Value)>, key: Seq<u8>)
    ensures
        match dict_get(entries, key) {
            Some(v) => exists|f: int|
                first_with_key(keys_of(entries), f) && #[trigger] entries[f] == (key, v),
            None => forall|i: int| 0 <= i < entries.len() ==> (#[trigger] entries[i]).0 != key,
        },
    decreases entries.len(),
{
    let keys = keys_of(entries);
    if entries.len() == 0 {
    } else if entries[0].0 == key {
        assert(first_with_key(keys, 0));
    } else {
        let rest = entries.skip(1);
        lemma_dict_get_first(rest, key);
        match dict_get(rest, key) {
            Some(v) => {
                let f = choose|f: int|
                    first_with_key(keys_of(rest), f) && #[trigger] rest[f] == (key, v);
                assert(entries[f + 1] == rest[f]);
                assert forall|k: int| 0 <= k < f + 1 implies #[trigger] keys[k] != keys[f + 1] by {
                    if k > 0 {
                        assert(keys_of(rest)[k - 1] == keys[k]);
                    }
                }
                assert(first_with_key(keys, f + 1));
            },
            None => {
                assert forall|i: int| 0 <= i < entries.len() implies (#[trigger] entries[i]).0
                    != key by {
                    if i > 0 {
                        assert(rest[i - 1] == entries[i]);
                    }
                }
            },
        }
    }
}

/// The indices as mathematical integers.
pub open spec fn order_view(order: Seq<usize>) -> Seq<int> {
    Seq::new(order.len(), |j: int| order[j] as int)
}

/// The indices of the entries in the order in which they are written.
pub fn sorted_order(entries: &Vec<Entry>) -> (order: Vec<usize>)
    ensures
        order_view(order@) == sorted_indices(keys_of(entry_views(entries@))),
        forall|j: int| 0 <= j < order@.len() ==> (#[trigger] order@[j]) < entries@.len(),
{
    let ghost keys = keys_of(entry_views(entries@));
    let mut order: Vec<usize> = Vec::new();
    let mut i: usize = 0;
    assert(order_view(order@) =~= sorted_upto(keys, 0));
    while i < entries.len()
        invariant
            i <= entries@.len(),
            keys == keys_of(entry_views(entries@)),
            order_view(order@) == sorted_upto(keys, i as int),
            forall|j: int| 0 <= j < order@.len() ==> (#[trigger] order@[j]) < i,
        decreases entries@.len() - i,
    {
        let ghost sorted = order_view(order@);
        let key: &[u8] = entries[i].key.payload;
        assert(key@ == keys[i as int]);
        let mut p: usize = order.len();
        let mut known = false;
        while p > 0 && !known && !bytes_less(entries[order[p - 1]].key.payload, key)
            invariant
                p <= order@.len(),
                i < entries@.len(),
                keys == keys_of(entry_views(entries@)),
                key@ == keys[i as int],
                sorted == order_view(order@),
                forall|j: int| 0 <= j < order@.len() ==> (#[trigger] order@[j]) < i,
                !known ==> forall|j: int|
                    p <= j < sorted.len() ==> !lex_less(keys[#[trigger] sorted[j]], keys[i as int])
                        && keys[sorted[j]] != keys[i as int],
                known ==> p < sorted.len() && keys[sorted[p as int]] == keys[i as int]
                    && forall|j: int|
                    p < j < sorted.len() ==> !lex_less(keys[#[trigger] sorted[j]], keys[i as int])
                        && keys[sorted[j]] != keys[i as int],
            decreases p + (if known { 0int } else { 1int }),
        {
            let other: usize = order[p - 1];
            assert(sorted[p - 1] == other);
            assert(keys[other as int] == entries@[other as int].key.payload@);
            if bytes_eq(entries[other].key.payload, key) {
                known = true;
            }
            p -= 1;
        }
        proof {
            if known {
                lemma_insert_index_known(keys, sorted, i as int, p as int);
            } else {
                if p > 0 {
                    assert(sorted[p - 1] == order@[p - 1]);
                    assert(keys[order@[p - 1] as int] == entries@[order@[p - 1] as int].key.payload@);
                }
                lemma_insert_index_at(keys, sorted, i as int, p as int);
            }
        }
        if !known {
            order.insert(p, i);
            assert(order_view(order@) =~= sorted.insert(p as int, i as int));
        }
        i += 1;
    }
    order
}

} // verus!
